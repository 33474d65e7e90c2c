//! The primitives: the operations that a participant and the broker ask of
//! each other, in both directions.

use vstd::prelude::*;
use crate::proto::decl::SubInfo;
use crate::proto::msg::{QueryConsolidation, QueryTarget, ReplySource};
use crate::types::{opt_bytes_view, PeerId, ResKey, ResKeyView, ZInt};

verus! {

/// One answer to a query.
#[derive(Clone, Debug, PartialEq, Eq)]
pub enum Reply {
    /// Data from one replier.
    ReplyData {
        source: ReplySource,
        replier_id: PeerId,
        reskey: ResKey,
        info: Option<Vec<u8>>,
        payload: Vec<u8>,
    },
    /// One replier has no more data.
    SourceFinal { source: ReplySource, replier_id: PeerId },
    /// Nobody has any more data.
    ReplyFinal,
}

/// What a [`Reply`] holds.
pub enum ReplyView {
    ReplyData {
        source: ReplySource,
        replier_id: Seq<u8>,
        reskey: ResKeyView,
        info: Option<Seq<u8>>,
        payload: Seq<u8>,
    },
    SourceFinal { source: ReplySource, replier_id: Seq<u8> },
    ReplyFinal,
}

impl View for Reply {
    type V = ReplyView;

    open spec fn view(&self) -> ReplyView {
        match self {
            Reply::ReplyData { source, replier_id, reskey, info, payload } => ReplyView::ReplyData {
                source: *source,
                replier_id: replier_id@,
                reskey: reskey@,
                info: opt_bytes_view(*info),
                payload: payload@,
            },
            Reply::SourceFinal { source, replier_id } => ReplyView::SourceFinal {
                source: *source,
                replier_id: replier_id@,
            },
            Reply::ReplyFinal => ReplyView::ReplyFinal,
        }
    }
}

/// One call of the primitives, as a value.
#[derive(Clone, Debug, PartialEq, Eq)]
pub enum Call {
    Resource { rid: ZInt, reskey: ResKey },
    ForgetResource { rid: ZInt },
    Publisher { reskey: ResKey },
    ForgetPublisher { reskey: ResKey },
    Subscriber { reskey: ResKey, sub_info: SubInfo },
    ForgetSubscriber { reskey: ResKey },
    Storage { reskey: ResKey },
    ForgetStorage { reskey: ResKey },
    Eval { reskey: ResKey },
    ForgetEval { reskey: ResKey },
    Data { reskey: ResKey, reliable: bool, info: Option<Vec<u8>>, payload: Vec<u8> },
    Query {
        reskey: ResKey,
        predicate: String,
        qid: ZInt,
        target: Option<QueryTarget>,
        consolidation: QueryConsolidation,
    },
    Reply { qid: ZInt, reply: Reply },
    Pull { is_final: bool, reskey: ResKey, pull_id: ZInt, max_samples: Option<ZInt> },
    Close,
}

/// What a [`Call`] holds.
pub enum CallView {
    Resource { rid: ZInt, reskey: ResKeyView },
    ForgetResource { rid: ZInt },
    Publisher { reskey: ResKeyView },
    ForgetPublisher { reskey: ResKeyView },
    Subscriber { reskey: ResKeyView, sub_info: SubInfo },
    ForgetSubscriber { reskey: ResKeyView },
    Storage { reskey: ResKeyView },
    ForgetStorage { reskey: ResKeyView },
    Eval { reskey: ResKeyView },
    ForgetEval { reskey: ResKeyView },
    Data { reskey: ResKeyView, reliable: bool, info: Option<Seq<u8>>, payload: Seq<u8> },
    Query {
        reskey: ResKeyView,
        predicate: Seq<char>,
        qid: ZInt,
        target: Option<QueryTarget>,
        consolidation: QueryConsolidation,
    },
    Reply { qid: ZInt, reply: ReplyView },
    Pull { is_final: bool, reskey: ResKeyView, pull_id: ZInt, max_samples: Option<ZInt> },
    Close,
}

impl View for Call {
    type V = CallView;

    open spec fn view(&self) -> CallView {
        match self {
            Call::Resource { rid, reskey } => CallView::Resource { rid: *rid, reskey: reskey@ },
            Call::ForgetResource { rid } => CallView::ForgetResource { rid: *rid },
            Call::Publisher { reskey } => CallView::Publisher { reskey: reskey@ },
            Call::ForgetPublisher { reskey } => CallView::ForgetPublisher { reskey: reskey@ },
            Call::Subscriber { reskey, sub_info } => CallView::Subscriber {
                reskey: reskey@,
                sub_info: *sub_info,
            },
            Call::ForgetSubscriber { reskey } => CallView::ForgetSubscriber { reskey: reskey@ },
            Call::Storage { reskey } => CallView::Storage { reskey: reskey@ },
            Call::ForgetStorage { reskey } => CallView::ForgetStorage { reskey: reskey@ },
            Call::Eval { reskey } => CallView::Eval { reskey: reskey@ },
            Call::ForgetEval { reskey } => CallView::ForgetEval { reskey: reskey@ },
            Call::Data { reskey, reliable, info, payload } => CallView::Data {
                reskey: reskey@,
                reliable: *reliable,
                info: opt_bytes_view(*info),
                payload: payload@,
            },
            Call::Query { reskey, predicate, qid, target, consolidation } => CallView::Query {
                reskey: reskey@,
                predicate: predicate@,
                qid: *qid,
                target: *target,
                consolidation: *consolidation,
            },
            Call::Reply { qid, reply } => CallView::Reply { qid: *qid, reply: reply@ },
            Call::Pull { is_final, reskey, pull_id, max_samples } => CallView::Pull {
                is_final: *is_final,
                reskey: reskey@,
                pull_id: *pull_id,
                max_samples: *max_samples,
            },
            Call::Close => CallView::Close,
        }
    }
}

impl DeepView for Call {
    type V = CallView;

    open spec fn deep_view(&self) -> CallView {
        self@
    }
}

/// The operations that a participant and the broker ask of each other. The
/// broker implements them for what comes in from a face, and asks them of
/// the face for what goes out to it.
///
/// An implementation keeps track, for the proofs, of the calls that it got.
pub trait Primitives {
    /// The calls made so far, in their order.
    spec fn calls(&self) -> Seq<CallView>;

    /// The id `rid` stands for the resource of the key `reskey`.
    fn resource(&mut self, rid: ZInt, reskey: ResKey)
        ensures
            final(self).calls() == old(self).calls().push(
                CallView::Resource { rid, reskey: reskey@ },
            ),
    ;

    /// The id `rid` stands for nothing any more.
    fn forget_resource(&mut self, rid: ZInt)
        ensures
            final(self).calls() == old(self).calls().push(CallView::ForgetResource { rid }),
    ;

    fn publisher(&mut self, reskey: ResKey)
        ensures
            final(self).calls() == old(self).calls().push(CallView::Publisher { reskey: reskey@ }),
    ;

    fn forget_publisher(&mut self, reskey: ResKey)
        ensures
            final(self).calls() == old(self).calls().push(
                CallView::ForgetPublisher { reskey: reskey@ },
            ),
    ;

    fn subscriber(&mut self, reskey: ResKey, sub_info: SubInfo)
        ensures
            final(self).calls() == old(self).calls().push(
                CallView::Subscriber { reskey: reskey@, sub_info },
            ),
    ;

    fn forget_subscriber(&mut self, reskey: ResKey)
        ensures
            final(self).calls() == old(self).calls().push(
                CallView::ForgetSubscriber { reskey: reskey@ },
            ),
    ;

    fn storage(&mut self, reskey: ResKey)
        ensures
            final(self).calls() == old(self).calls().push(CallView::Storage { reskey: reskey@ }),
    ;

    fn forget_storage(&mut self, reskey: ResKey)
        ensures
            final(self).calls() == old(self).calls().push(
                CallView::ForgetStorage { reskey: reskey@ },
            ),
    ;

    fn eval(&mut self, reskey: ResKey)
        ensures
            final(self).calls() == old(self).calls().push(CallView::Eval { reskey: reskey@ }),
    ;

    fn forget_eval(&mut self, reskey: ResKey)
        ensures
            final(self).calls() == old(self).calls().push(CallView::ForgetEval { reskey: reskey@ }),
    ;

    fn data(&mut self, reskey: ResKey, reliable: bool, info: Option<Vec<u8>>, payload: Vec<u8>)
        ensures
            final(self).calls() == old(self).calls().push(
                CallView::Data {
                    reskey: reskey@,
                    reliable,
                    info: opt_bytes_view(info),
                    payload: payload@,
                },
            ),
    ;

    fn query(
        &mut self,
        reskey: ResKey,
        predicate: String,
        qid: ZInt,
        target: Option<QueryTarget>,
        consolidation: QueryConsolidation,
    )
        ensures
            final(self).calls() == old(self).calls().push(
                CallView::Query {
                    reskey: reskey@,
                    predicate: predicate@,
                    qid,
                    target,
                    consolidation,
                },
            ),
    ;

    fn reply(&mut self, qid: ZInt, reply: Reply)
        ensures
            final(self).calls() == old(self).calls().push(CallView::Reply { qid, reply: reply@ }),
    ;

    fn pull(&mut self, is_final: bool, reskey: ResKey, pull_id: ZInt, max_samples: Option<ZInt>)
        ensures
            final(self).calls() == old(self).calls().push(
                CallView::Pull { is_final, reskey: reskey@, pull_id, max_samples },
            ),
    ;

    fn close(&mut self)
        ensures
            final(self).calls() == old(self).calls().push(CallView::Close),
    ;
}

/// Asks the operation `call` of `p`.
pub fn dispatch<P: Primitives>(p: &mut P, call: Call)
    ensures
        final(p).calls() == old(p).calls().push(call@),
{
    match call {
        Call::Resource { rid, reskey } => p.resource(rid, reskey),
        Call::ForgetResource { rid } => p.forget_resource(rid),
        Call::Publisher { reskey } => p.publisher(reskey),
        Call::ForgetPublisher { reskey } => p.forget_publisher(reskey),
        Call::Subscriber { reskey, sub_info } => p.subscriber(reskey, sub_info),
        Call::ForgetSubscriber { reskey } => p.forget_subscriber(reskey),
        Call::Storage { reskey } => p.storage(reskey),
        Call::ForgetStorage { reskey } => p.forget_storage(reskey),
        Call::Eval { reskey } => p.eval(reskey),
        Call::ForgetEval { reskey } => p.forget_eval(reskey),
        Call::Data { reskey, reliable, info, payload } => p.data(reskey, reliable, info, payload),
        Call::Query { reskey, predicate, qid, target, consolidation } => p.query(
            reskey,
            predicate,
            qid,
            target,
            consolidation,
        ),
        Call::Reply { qid, reply } => p.reply(qid, reply),
        Call::Pull { is_final, reskey, pull_id, max_samples } => p.pull(
            is_final,
            reskey,
            pull_id,
            max_samples,
        ),
        Call::Close => p.close(),
    }
}

} // verus!
