//! The demultiplexer: every message of the session becomes the calls of the
//! primitives that it stands for.

use vstd::prelude::*;
use crate::proto::decl::{Declaration, DeclarationView, Reliability, SubInfo, SubMode};
use crate::proto::msg::{Body, BodyView, Message, MessageView, ReplyContext, ReplyContextView};
use crate::proto::mux::spec_mux;
use crate::proto::primitives::{dispatch, Call, CallView, Primitives, Reply, ReplyView};
use crate::routing::pubsub::{copy_bytes, copy_opt_bytes};
use crate::types::ZInt;

verus! {

/// What a subscriber asks for, as far as the wire tells: the mode; the
/// subscription is reliable and has no period of its own.
pub open spec fn wire_sub_info(mode: SubMode) -> SubInfo {
    SubInfo { reliability: Reliability::Reliable, mode, period: None }
}

/// The call that a declaration stands for.
pub open spec fn decl_call(d: DeclarationView) -> CallView {
    match d {
        DeclarationView::Resource { rid, key } => CallView::Resource { rid, reskey: key },
        DeclarationView::ForgetResource { rid } => CallView::ForgetResource { rid },
        DeclarationView::Publisher { key } => CallView::Publisher { reskey: key },
        DeclarationView::ForgetPublisher { key } => CallView::ForgetPublisher { reskey: key },
        DeclarationView::Subscriber { key, mode } => CallView::Subscriber {
            reskey: key,
            sub_info: wire_sub_info(mode),
        },
        DeclarationView::ForgetSubscriber { key } => CallView::ForgetSubscriber { reskey: key },
        DeclarationView::Storage { key } => CallView::Storage { reskey: key },
        DeclarationView::ForgetStorage { key } => CallView::ForgetStorage { reskey: key },
        DeclarationView::Eval { key } => CallView::Eval { reskey: key },
        DeclarationView::ForgetEval { key } => CallView::ForgetEval { reskey: key },
    }
}

/// The calls that a message stands for, in their order: one for each
/// declaration of a DECLARE message; one for a DATA, QUERY, PULL or CLOSE
/// message; one for a KEEP_ALIVE message that ends a reply or the replies of
/// one source; none for any other message. A DATA message that is marked as
/// the reply of a replier is a reply.
pub open spec fn spec_demux(m: MessageView) -> Seq<CallView> {
    match m.body {
        BodyView::Declare { declarations, .. } => Seq::new(
            declarations.len(),
            |i: int| decl_call(declarations[i]),
        ),
        BodyView::Data { reliable, key, info, payload, .. } => match m.reply_context {
            Some(ReplyContextView { qid, source, replier_id: Some(replier_id), .. }) => seq![
                CallView::Reply {
                    qid,
                    reply: ReplyView::ReplyData { source, replier_id, reskey: key, info, payload },
                },
            ],
            _ => seq![CallView::Data { reskey: key, reliable, info, payload }],
        },
        BodyView::Query { key, predicate, qid, target, consolidation, .. } => seq![
            CallView::Query { reskey: key, predicate, qid, target, consolidation },
        ],
        BodyView::Pull { is_final, key, pull_id, max_samples, .. } => seq![
            CallView::Pull { is_final, reskey: key, pull_id, max_samples },
        ],
        BodyView::Close { .. } => seq![CallView::Close],
        BodyView::KeepAlive { .. } => match m.reply_context {
            Some(c) => if c.is_final {
                seq![CallView::Reply { qid: c.qid, reply: ReplyView::ReplyFinal }]
            } else {
                match c.replier_id {
                    Some(replier_id) => seq![
                        CallView::Reply {
                            qid: c.qid,
                            reply: ReplyView::SourceFinal { source: c.source, replier_id },
                        },
                    ],
                    None => Seq::empty(),
                }
            },
            None => Seq::empty(),
        },
        _ => Seq::empty(),
    }
}

/// The wire carries the call as it is: of what a subscriber asks for, the
/// wire carries the mode alone.
pub open spec fn carried(call: CallView) -> bool {
    call matches CallView::Subscriber { sub_info, .. } ==> sub_info == wire_sub_info(sub_info.mode)
}

/// The message that the multiplexer makes of a call stands for that call
/// and no other.
pub proof fn lemma_demux_mux(call: CallView, sn: ZInt)
    requires
        carried(call),
    ensures
        spec_demux(spec_mux(call, sn)) == seq![call],
{
    let m = spec_mux(call, sn);
    match m.body {
        BodyView::Declare { declarations, .. } => {
            assert(spec_demux(m) =~= seq![call]);
        },
        _ => {},
    }
}

fn call_of(d: &Declaration) -> (c: Call)
    ensures
        c@ == decl_call(d@),
{
    match d {
        Declaration::Resource { rid, key } => Call::Resource { rid: *rid, reskey: key.duplicate() },
        Declaration::ForgetResource { rid } => Call::ForgetResource { rid: *rid },
        Declaration::Publisher { key } => Call::Publisher { reskey: key.duplicate() },
        Declaration::ForgetPublisher { key } => Call::ForgetPublisher { reskey: key.duplicate() },
        Declaration::Subscriber { key, mode } => Call::Subscriber {
            reskey: key.duplicate(),
            sub_info: SubInfo { reliability: Reliability::Reliable, mode: *mode, period: None },
        },
        Declaration::ForgetSubscriber { key } => Call::ForgetSubscriber { reskey: key.duplicate() },
        Declaration::Storage { key } => Call::Storage { reskey: key.duplicate() },
        Declaration::ForgetStorage { key } => Call::ForgetStorage { reskey: key.duplicate() },
        Declaration::Eval { key } => Call::Eval { reskey: key.duplicate() },
        Declaration::ForgetEval { key } => Call::ForgetEval { reskey: key.duplicate() },
    }
}

fn one(call: Call) -> (v: Vec<Call>)
    ensures
        v.deep_view() == seq![call@],
{
    let ghost cv = call@;
    let mut v: Vec<Call> = Vec::new();
    v.push(call);
    assert(v.deep_view() =~= seq![cv]);
    v
}

fn none() -> (v: Vec<Call>)
    ensures
        v.deep_view() == Seq::<CallView>::empty(),
{
    let v: Vec<Call> = Vec::new();
    assert(v.deep_view() =~= Seq::empty());
    v
}

/// The calls that the message stands for, in their order.
pub fn demux(msg: &Message) -> (calls: Vec<Call>)
    ensures
        calls.deep_view() == spec_demux(msg@),
{
    match &msg.body {
        Body::Declare { sn, declarations } => {
            let mut out: Vec<Call> = Vec::new();
            let mut i: usize = 0;
            while i < declarations.len()
                invariant
                    i <= declarations.len(),
                    out@.len() == i,
                    forall|k: int|
                        0 <= k < i ==> (#[trigger] out@[k])@ == decl_call(declarations@[k]@),
                decreases declarations.len() - i,
            {
                out.push(call_of(&declarations[i]));
                i = i + 1;
            }
            assert(out.deep_view() =~= spec_demux(msg@));
            out
        },
        Body::Data { reliable, sn, key, info, payload } => {
            match &msg.reply_context {
                Some(ReplyContext { is_final, qid, source, replier_id: Some(replier_id) }) => one(
                    Call::Reply {
                        qid: *qid,
                        reply: Reply::ReplyData {
                            source: *source,
                            replier_id: replier_id.duplicate(),
                            reskey: key.duplicate(),
                            info: copy_opt_bytes(info),
                            payload: copy_bytes(payload),
                        },
                    },
                ),
                _ => one(
                    Call::Data {
                        reskey: key.duplicate(),
                        reliable: *reliable,
                        info: copy_opt_bytes(info),
                        payload: copy_bytes(payload),
                    },
                ),
            }
        },
        Body::Query { sn, key, predicate, qid, target, consolidation } => one(
            Call::Query {
                reskey: key.duplicate(),
                predicate: predicate.clone(),
                qid: *qid,
                target: *target,
                consolidation: *consolidation,
            },
        ),
        Body::Pull { is_final, sn, key, pull_id, max_samples } => one(
            Call::Pull {
                is_final: *is_final,
                reskey: key.duplicate(),
                pull_id: *pull_id,
                max_samples: *max_samples,
            },
        ),
        Body::Close { .. } => one(Call::Close),
        Body::KeepAlive { .. } => match &msg.reply_context {
            Some(c) => {
                if c.is_final {
                    one(Call::Reply { qid: c.qid, reply: Reply::ReplyFinal })
                } else {
                    match &c.replier_id {
                        Some(replier_id) => one(
                            Call::Reply {
                                qid: c.qid,
                                reply: Reply::SourceFinal {
                                    source: c.source,
                                    replier_id: replier_id.duplicate(),
                                },
                            },
                        ),
                        None => none(),
                    }
                }
            },
            None => none(),
        },
        _ => none(),
    }
}

/// The demultiplexer: it asks of the primitives `P` what the messages that
/// it gets stand for.
pub struct DeMux<P: Primitives> {
    pub primitives: P,
}

impl<P: Primitives> DeMux<P> {
    /// A demultiplexer in front of `primitives`.
    pub fn new(primitives: P) -> (d: DeMux<P>)
        ensures
            d.primitives == primitives,
    {
        DeMux { primitives }
    }

    /// Asks of the primitives the calls that the message stands for.
    pub fn handle_message(&mut self, msg: &Message)
        ensures
            final(self).primitives.calls() == old(self).primitives.calls() + spec_demux(msg@),
    {
        let mut calls = demux(msg);
        let ghost all = calls.deep_view();
        let ghost start = self.primitives.calls();
        // The calls are made in their order: the vector is emptied from its front.
        let n = calls.len();
        let mut i: usize = 0;
        reverse(&mut calls);
        assert(start + all.take(0) =~= start);
        while i < n
            invariant
                i <= n,
                n == all.len(),
                calls@.len() == n - i,
                forall|k: int| 0 <= k < n - i ==> (#[trigger] calls@[k])@ == all[n - 1 - k],
                self.primitives.calls() == start + all.take(i as int),
            decreases n - i,
        {
            let call = calls.pop().unwrap();
            proof {
                assert(call@ == all[i as int]);
                assert(all.take(i + 1) =~= all.take(i as int).push(all[i as int]));
                assert((start + all.take(i as int)).push(all[i as int]) =~= start + all.take(
                    i + 1,
                ));
            }
            dispatch(&mut self.primitives, call);
            i = i + 1;
        }
        assert(all.take(n as int) =~= all);
    }
}

/// Puts the calls in the opposite order.
fn reverse(v: &mut Vec<Call>)
    ensures
        final(v)@.len() == old(v)@.len(),
        forall|k: int|
            0 <= k < old(v)@.len() ==> (#[trigger] final(v)@[k]) == old(v)@[old(v)@.len() - 1 - k],
{
    let mut out: Vec<Call> = Vec::new();
    let ghost all = v@;
    while v.len() > 0
        invariant
            out@.len() + v@.len() == all.len(),
            forall|k: int| 0 <= k < v@.len() ==> #[trigger] v@[k] == all[k],
            forall|k: int| 0 <= k < out@.len() ==> #[trigger] out@[k] == all[all.len() - 1 - k],
        decreases v@.len(),
    {
        let c = v.pop().unwrap();
        out.push(c);
    }
    *v = out;
}

} // verus!
