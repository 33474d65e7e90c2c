//! The multiplexer: every call of the primitives becomes a message for the session.

use vstd::prelude::*;
use crate::proto::decl::{Declaration, DeclarationView, SubInfo};
use crate::proto::msg::{
    Body, BodyView, Message, MessageKind, MessageView, QueryConsolidation, QueryTarget,
    ReplyContext, ReplyContextView, ReplySource,
};
use crate::proto::primitives::{Call, CallView, Primitives, Reply, ReplyView};
use crate::types::{ResKey, ZInt};

verus! {

/// The message that holds the body `body` and nothing else.
pub open spec fn plain(body: BodyView) -> MessageView {
    MessageView {
        kind: MessageKind::FullMessage,
        cid: None,
        reply_context: None,
        properties: None,
        body,
    }
}

/// The message that holds the body `body` and marks it as part of a reply.
pub open spec fn in_reply(c: ReplyContextView, body: BodyView) -> MessageView {
    MessageView {
        kind: MessageKind::FullMessage,
        cid: None,
        reply_context: Some(c),
        properties: None,
        body,
    }
}

/// The DECLARE message with the sequence number `sn` that holds one declaration.
pub open spec fn declare(sn: ZInt, d: DeclarationView) -> MessageView {
    plain(BodyView::Declare { sn, declarations: seq![d] })
}

/// The message that carries the call `call` with the sequence number `sn`.
///
/// A declaration is a DECLARE message. A reply is a DATA message, or a
/// KEEP_ALIVE message where a source or the whole reply ends, marked as
/// part of the reply. The wire carries the mode of a subscription; what else
/// a subscriber asks for stays behind.
pub open spec fn spec_mux(call: CallView, sn: ZInt) -> MessageView {
    match call {
        CallView::Resource { rid, reskey } => declare(
            sn,
            DeclarationView::Resource { rid, key: reskey },
        ),
        CallView::ForgetResource { rid } => declare(sn, DeclarationView::ForgetResource { rid }),
        CallView::Publisher { reskey } => declare(sn, DeclarationView::Publisher { key: reskey }),
        CallView::ForgetPublisher { reskey } => declare(
            sn,
            DeclarationView::ForgetPublisher { key: reskey },
        ),
        CallView::Subscriber { reskey, sub_info } => declare(
            sn,
            DeclarationView::Subscriber { key: reskey, mode: sub_info.mode },
        ),
        CallView::ForgetSubscriber { reskey } => declare(
            sn,
            DeclarationView::ForgetSubscriber { key: reskey },
        ),
        CallView::Storage { reskey } => declare(sn, DeclarationView::Storage { key: reskey }),
        CallView::ForgetStorage { reskey } => declare(
            sn,
            DeclarationView::ForgetStorage { key: reskey },
        ),
        CallView::Eval { reskey } => declare(sn, DeclarationView::Eval { key: reskey }),
        CallView::ForgetEval { reskey } => declare(sn, DeclarationView::ForgetEval { key: reskey }),
        CallView::Data { reskey, reliable, info, payload } => plain(
            BodyView::Data { reliable, sn, key: reskey, info, payload },
        ),
        CallView::Query { reskey, predicate, qid, target, consolidation } => plain(
            BodyView::Query { sn, key: reskey, predicate, qid, target, consolidation },
        ),
        CallView::Reply { qid, reply } => match reply {
            ReplyView::ReplyData { source, replier_id, reskey, info, payload } => in_reply(
                ReplyContextView { is_final: false, qid, source, replier_id: Some(replier_id) },
                BodyView::Data { reliable: true, sn, key: reskey, info, payload },
            ),
            ReplyView::SourceFinal { source, replier_id } => in_reply(
                ReplyContextView { is_final: false, qid, source, replier_id: Some(replier_id) },
                BodyView::KeepAlive { pid: None },
            ),
            ReplyView::ReplyFinal => in_reply(
                ReplyContextView {
                    is_final: true,
                    qid,
                    source: ReplySource::Storage,
                    replier_id: None,
                },
                BodyView::KeepAlive { pid: None },
            ),
        },
        CallView::Pull { is_final, reskey, pull_id, max_samples } => plain(
            BodyView::Pull { is_final, sn, key: reskey, pull_id, max_samples },
        ),
        CallView::Close => plain(BodyView::Close { pid: None, reason: 0 }),
    }
}

/// The CLOSE message that gives the reason `reason`.
pub fn close_message(reason: u8) -> (m: Message)
    ensures
        m@ == plain(BodyView::Close { pid: None, reason }),
{
    plain_message(Body::Close { pid: None, reason })
}

fn plain_message(body: Body) -> (m: Message)
    ensures
        m@ == plain(body@),
{
    Message {
        kind: MessageKind::FullMessage,
        cid: None,
        reply_context: None,
        properties: None,
        body,
    }
}

fn reply_message(c: ReplyContext, body: Body) -> (m: Message)
    ensures
        m@ == in_reply(c@, body@),
{
    Message {
        kind: MessageKind::FullMessage,
        cid: None,
        reply_context: Some(c),
        properties: None,
        body,
    }
}

fn declare_message(sn: ZInt, d: Declaration) -> (m: Message)
    ensures
        m@ == declare(sn, d@),
{
    let ghost dv = d@;
    let mut declarations: Vec<Declaration> = Vec::new();
    declarations.push(d);
    assert(declarations.deep_view() =~= seq![dv]);
    plain_message(Body::Declare { sn, declarations })
}

/// The message that carries the call `call` with the sequence number `sn`.
pub fn message_of(call: Call, sn: ZInt) -> (m: Message)
    ensures
        m@ == spec_mux(call@, sn),
{
    match call {
        Call::Resource { rid, reskey } => declare_message(
            sn,
            Declaration::Resource { rid, key: reskey },
        ),
        Call::ForgetResource { rid } => declare_message(sn, Declaration::ForgetResource { rid }),
        Call::Publisher { reskey } => declare_message(sn, Declaration::Publisher { key: reskey }),
        Call::ForgetPublisher { reskey } => declare_message(
            sn,
            Declaration::ForgetPublisher { key: reskey },
        ),
        Call::Subscriber { reskey, sub_info } => declare_message(
            sn,
            Declaration::Subscriber { key: reskey, mode: sub_info.mode },
        ),
        Call::ForgetSubscriber { reskey } => declare_message(
            sn,
            Declaration::ForgetSubscriber { key: reskey },
        ),
        Call::Storage { reskey } => declare_message(sn, Declaration::Storage { key: reskey }),
        Call::ForgetStorage { reskey } => declare_message(
            sn,
            Declaration::ForgetStorage { key: reskey },
        ),
        Call::Eval { reskey } => declare_message(sn, Declaration::Eval { key: reskey }),
        Call::ForgetEval { reskey } => declare_message(sn, Declaration::ForgetEval { key: reskey }),
        Call::Data { reskey, reliable, info, payload } => plain_message(
            Body::Data { reliable, sn, key: reskey, info, payload },
        ),
        Call::Query { reskey, predicate, qid, target, consolidation } => plain_message(
            Body::Query { sn, key: reskey, predicate, qid, target, consolidation },
        ),
        Call::Reply { qid, reply } => match reply {
            Reply::ReplyData { source, replier_id, reskey, info, payload } => reply_message(
                ReplyContext { is_final: false, qid, source, replier_id: Some(replier_id) },
                Body::Data { reliable: true, sn, key: reskey, info, payload },
            ),
            Reply::SourceFinal { source, replier_id } => reply_message(
                ReplyContext { is_final: false, qid, source, replier_id: Some(replier_id) },
                Body::KeepAlive { pid: None },
            ),
            Reply::ReplyFinal => reply_message(
                ReplyContext {
                    is_final: true,
                    qid,
                    source: ReplySource::Storage,
                    replier_id: None,
                },
                Body::KeepAlive { pid: None },
            ),
        },
        Call::Pull { is_final, reskey, pull_id, max_samples } => plain_message(
            Body::Pull { is_final, sn, key: reskey, pull_id, max_samples },
        ),
        Call::Close => close_message(0),
    }
}

/// The multiplexer: it turns the calls that it gets into messages, which
/// wait in its outbox for the session to send them.
pub struct Mux {
    sn: ZInt,
    outbox: Vec<Message>,
    log: Ghost<Seq<CallView>>,
}

impl Mux {
    /// The sequence number of the next message.
    pub closed spec fn next_sn(&self) -> ZInt {
        self.sn
    }

    /// The messages that wait to be sent.
    pub closed spec fn pending(&self) -> Seq<MessageView> {
        self.outbox.deep_view()
    }

    /// The calls made so far.
    pub closed spec fn log(&self) -> Seq<CallView> {
        self.log@
    }

    /// A multiplexer that got no call yet.
    pub fn new() -> (m: Mux)
        ensures
            m.next_sn() == 0,
            m.pending() == Seq::<MessageView>::empty(),
            m.log() == Seq::<CallView>::empty(),
    {
        let m = Mux { sn: 0, outbox: Vec::new(), log: Ghost(Seq::empty()) };
        assert(m.outbox.deep_view() =~= Seq::empty());
        m
    }

    /// Turns the call into a message with the next sequence number, and
    /// puts it at the end of the outbox.
    pub fn send(&mut self, call: Call)
        ensures
            final(self).log() == old(self).log().push(call@),
            final(self).pending() == old(self).pending().push(
                spec_mux(call@, old(self).next_sn()),
            ),
            final(self).next_sn() == (if old(self).next_sn() == u64::MAX {
                0
            } else {
                old(self).next_sn() + 1
            }),
    {
        let ghost cv = call@;
        let ghost before = self.outbox.deep_view();
        let m = message_of(call, self.sn);
        let ghost mv = m@;
        self.outbox.push(m);
        self.sn = if self.sn == u64::MAX {
            0
        } else {
            self.sn + 1
        };
        self.log = Ghost(self.log@.push(cv));
        assert(self.outbox.deep_view() =~= before.push(mv));
    }

    /// The messages that wait to be sent; the outbox is empty then.
    pub fn take(&mut self) -> (out: Vec<Message>)
        ensures
            out.deep_view() == old(self).pending(),
            final(self).pending() == Seq::<MessageView>::empty(),
            final(self).log() == old(self).log(),
            final(self).next_sn() == old(self).next_sn(),
    {
        let mut out: Vec<Message> = Vec::new();
        std::mem::swap(&mut out, &mut self.outbox);
        assert(self.outbox.deep_view() =~= Seq::empty());
        out
    }
}

impl Primitives for Mux {
    open spec fn calls(&self) -> Seq<CallView> {
        self.log()
    }

    fn resource(&mut self, rid: ZInt, reskey: ResKey) {
        self.send(Call::Resource { rid, reskey });
    }

    fn forget_resource(&mut self, rid: ZInt) {
        self.send(Call::ForgetResource { rid });
    }

    fn publisher(&mut self, reskey: ResKey) {
        self.send(Call::Publisher { reskey });
    }

    fn forget_publisher(&mut self, reskey: ResKey) {
        self.send(Call::ForgetPublisher { reskey });
    }

    fn subscriber(&mut self, reskey: ResKey, sub_info: SubInfo) {
        self.send(Call::Subscriber { reskey, sub_info });
    }

    fn forget_subscriber(&mut self, reskey: ResKey) {
        self.send(Call::ForgetSubscriber { reskey });
    }

    fn storage(&mut self, reskey: ResKey) {
        self.send(Call::Storage { reskey });
    }

    fn forget_storage(&mut self, reskey: ResKey) {
        self.send(Call::ForgetStorage { reskey });
    }

    fn eval(&mut self, reskey: ResKey) {
        self.send(Call::Eval { reskey });
    }

    fn forget_eval(&mut self, reskey: ResKey) {
        self.send(Call::ForgetEval { reskey });
    }

    fn data(&mut self, reskey: ResKey, reliable: bool, info: Option<Vec<u8>>, payload: Vec<u8>) {
        self.send(Call::Data { reskey, reliable, info, payload });
    }

    fn query(
        &mut self,
        reskey: ResKey,
        predicate: String,
        qid: ZInt,
        target: Option<QueryTarget>,
        consolidation: QueryConsolidation,
    ) {
        self.send(Call::Query { reskey, predicate, qid, target, consolidation });
    }

    fn reply(&mut self, qid: ZInt, reply: Reply) {
        self.send(Call::Reply { qid, reply });
    }

    fn pull(&mut self, is_final: bool, reskey: ResKey, pull_id: ZInt, max_samples: Option<ZInt>) {
        self.send(Call::Pull { is_final, reskey, pull_id, max_samples });
    }

    fn close(&mut self) {
        self.send(Call::Close);
    }
}

} // verus!
