//! Messages: a body, and the decorations that may come before it.

use vstd::prelude::*;
use crate::proto::decl::{Declaration, DeclarationView};
use crate::types::{opt_bytes_view, PeerId, Property, PropertyView, ResKey, ResKeyView, ZInt};

verus! {

/// The ids of the messages.
pub const SCOUT: u8 = 0x01;

pub const HELLO: u8 = 0x02;

pub const OPEN: u8 = 0x03;

pub const ACCEPT: u8 = 0x04;

pub const CLOSE: u8 = 0x05;

pub const DECLARE: u8 = 0x06;

pub const DATA: u8 = 0x07;

pub const QUERY: u8 = 0x08;

pub const PULL: u8 = 0x09;

pub const PING_PONG: u8 = 0x0a;

pub const SYNC: u8 = 0x0b;

pub const ACK_NACK: u8 = 0x0c;

pub const KEEP_ALIVE: u8 = 0x0d;

/// The ids of the decorators.
pub const FRAGMENT: u8 = 0x0f;

pub const CONDUIT: u8 = 0x10;

pub const REPLY: u8 = 0x12;

pub const PROPERTIES: u8 = 0x1f;

/// The numbers of the query targets.
pub const TARGET_BEST_MATCHING: ZInt = 0;

pub const TARGET_COMPLETE: ZInt = 1;

pub const TARGET_ALL: ZInt = 2;

pub const TARGET_NONE: ZInt = 3;

/// The numbers of the consolidation modes.
pub const CONSOLIDATION_NONE: ZInt = 0;

pub const CONSOLIDATION_LAST_BROKER: ZInt = 1;

pub const CONSOLIDATION_INCREMENTAL: ZInt = 2;

/// Whether a message is whole or a fragment of one.
#[derive(Clone, Copy, Debug, PartialEq, Eq)]
pub enum MessageKind {
    FullMessage,
    FirstFragment { n: Option<ZInt> },
    InbetweenFragment,
    LastFragment,
}

impl View for MessageKind {
    type V = MessageKind;

    open spec fn view(&self) -> MessageKind {
        *self
    }
}

impl DeepView for MessageKind {
    type V = MessageKind;

    open spec fn deep_view(&self) -> MessageKind {
        *self
    }
}

/// Who answers a query.
#[derive(Clone, Copy, Debug, PartialEq, Eq, Structural)]
pub enum ReplySource {
    Eval,
    Storage,
}

/// Marks a message as part of the reply to a query.
#[derive(Clone, Debug, PartialEq, Eq)]
pub struct ReplyContext {
    pub is_final: bool,
    pub qid: ZInt,
    pub source: ReplySource,
    pub replier_id: Option<PeerId>,
}

/// What a [`ReplyContext`] holds.
pub struct ReplyContextView {
    pub is_final: bool,
    pub qid: ZInt,
    pub source: ReplySource,
    pub replier_id: Option<Seq<u8>>,
}

impl View for ReplyContext {
    type V = ReplyContextView;

    open spec fn view(&self) -> ReplyContextView {
        ReplyContextView {
            is_final: self.is_final,
            qid: self.qid,
            source: self.source,
            replier_id: match self.replier_id {
                Some(p) => Some(p@),
                None => None,
            },
        }
    }
}

impl DeepView for ReplyContext {
    type V = ReplyContextView;

    open spec fn deep_view(&self) -> ReplyContextView {
        self@
    }
}

impl ReplyContextView {
    /// A reply names its replier, unless it is the last of all.
    pub open spec fn wf(self) -> bool {
        self.is_final == (self.replier_id is None)
    }
}

/// Which of the sources of one kind a query is for.
#[derive(Clone, Copy, Debug, PartialEq, Eq, Structural)]
pub enum Target {
    BestMatching,
    Complete { n: ZInt },
    All,
    NoTarget,
}

impl View for Target {
    type V = Target;

    open spec fn view(&self) -> Target {
        *self
    }
}

impl DeepView for Target {
    type V = Target;

    open spec fn deep_view(&self) -> Target {
        *self
    }
}

/// Which storages and which evaluators a query is for.
#[derive(Clone, Copy, Debug, PartialEq, Eq, Structural)]
pub struct QueryTarget {
    pub storage: Target,
    pub eval: Target,
}

impl View for QueryTarget {
    type V = QueryTarget;

    open spec fn view(&self) -> QueryTarget {
        *self
    }
}

impl DeepView for QueryTarget {
    type V = QueryTarget;

    open spec fn deep_view(&self) -> QueryTarget {
        *self
    }
}

/// Where the replies to a query are merged.
#[derive(Clone, Copy, Debug, PartialEq, Eq, Structural)]
pub enum QueryConsolidation {
    NoConsolidation,
    LastBroker,
    Incremental,
}

impl View for QueryConsolidation {
    type V = QueryConsolidation;

    open spec fn view(&self) -> QueryConsolidation {
        *self
    }
}

impl DeepView for QueryConsolidation {
    type V = QueryConsolidation;

    open spec fn deep_view(&self) -> QueryConsolidation {
        *self
    }
}

/// What a message says.
#[allow(inconsistent_fields)]
#[derive(Clone, Debug, PartialEq, Eq)]
pub enum Body {
    Scout { what: Option<ZInt> },
    Hello { whatami: Option<ZInt>, locators: Option<Vec<String>> },
    Open {
        version: u8,
        whatami: Option<ZInt>,
        pid: PeerId,
        lease: ZInt,
        locators: Option<Vec<String>>,
    },
    Accept { opid: PeerId, apid: PeerId, lease: ZInt },
    Close { pid: Option<PeerId>, reason: u8 },
    KeepAlive { pid: Option<PeerId> },
    Declare { sn: ZInt, declarations: Vec<Declaration> },
    Data { reliable: bool, sn: ZInt, key: ResKey, info: Option<Vec<u8>>, payload: Vec<u8> },
    Pull { is_final: bool, sn: ZInt, key: ResKey, pull_id: ZInt, max_samples: Option<ZInt> },
    Query {
        sn: ZInt,
        key: ResKey,
        predicate: String,
        qid: ZInt,
        target: Option<QueryTarget>,
        consolidation: QueryConsolidation,
    },
    Ping { hash: ZInt },
    Pong { hash: ZInt },
    Sync { reliable: bool, sn: ZInt, count: Option<ZInt> },
    AckNack { sn: ZInt, mask: Option<ZInt> },
}

/// What a [`Body`] holds.
#[allow(inconsistent_fields)]
pub enum BodyView {
    Scout { what: Option<ZInt> },
    Hello { whatami: Option<ZInt>, locators: Option<Seq<Seq<char>>> },
    Open {
        version: u8,
        whatami: Option<ZInt>,
        pid: Seq<u8>,
        lease: ZInt,
        locators: Option<Seq<Seq<char>>>,
    },
    Accept { opid: Seq<u8>, apid: Seq<u8>, lease: ZInt },
    Close { pid: Option<Seq<u8>>, reason: u8 },
    KeepAlive { pid: Option<Seq<u8>> },
    Declare { sn: ZInt, declarations: Seq<DeclarationView> },
    Data { reliable: bool, sn: ZInt, key: ResKeyView, info: Option<Seq<u8>>, payload: Seq<u8> },
    Pull { is_final: bool, sn: ZInt, key: ResKeyView, pull_id: ZInt, max_samples: Option<ZInt> },
    Query {
        sn: ZInt,
        key: ResKeyView,
        predicate: Seq<char>,
        qid: ZInt,
        target: Option<QueryTarget>,
        consolidation: QueryConsolidation,
    },
    Ping { hash: ZInt },
    Pong { hash: ZInt },
    Sync { reliable: bool, sn: ZInt, count: Option<ZInt> },
    AckNack { sn: ZInt, mask: Option<ZInt> },
}

impl View for Body {
    type V = BodyView;

    open spec fn view(&self) -> BodyView {
        match self {
            Body::Scout { what } => BodyView::Scout { what: *what },
            Body::Hello { whatami, locators } => BodyView::Hello {
                whatami: *whatami,
                locators: locators.deep_view(),
            },
            Body::Open { version, whatami, pid, lease, locators } => BodyView::Open {
                version: *version,
                whatami: *whatami,
                pid: pid@,
                lease: *lease,
                locators: locators.deep_view(),
            },
            Body::Accept { opid, apid, lease } => BodyView::Accept {
                opid: opid@,
                apid: apid@,
                lease: *lease,
            },
            Body::Close { pid, reason } => BodyView::Close {
                pid: pid.deep_view(),
                reason: *reason,
            },
            Body::KeepAlive { pid } => BodyView::KeepAlive { pid: pid.deep_view() },
            Body::Declare { sn, declarations } => BodyView::Declare {
                sn: *sn,
                declarations: declarations.deep_view(),
            },
            Body::Data { reliable, sn, key, info, payload } => BodyView::Data {
                reliable: *reliable,
                sn: *sn,
                key: key@,
                info: opt_bytes_view(*info),
                payload: payload@,
            },
            Body::Pull { is_final, sn, key, pull_id, max_samples } => BodyView::Pull {
                is_final: *is_final,
                sn: *sn,
                key: key@,
                pull_id: *pull_id,
                max_samples: *max_samples,
            },
            Body::Query { sn, key, predicate, qid, target, consolidation } => BodyView::Query {
                sn: *sn,
                key: key@,
                predicate: predicate@,
                qid: *qid,
                target: *target,
                consolidation: *consolidation,
            },
            Body::Ping { hash } => BodyView::Ping { hash: *hash },
            Body::Pong { hash } => BodyView::Pong { hash: *hash },
            Body::Sync { reliable, sn, count } => BodyView::Sync {
                reliable: *reliable,
                sn: *sn,
                count: *count,
            },
            Body::AckNack { sn, mask } => BodyView::AckNack { sn: *sn, mask: *mask },
        }
    }
}

impl DeepView for Body {
    type V = BodyView;

    open spec fn deep_view(&self) -> BodyView {
        self@
    }
}

/// A message: its body and its decorations.
#[derive(Clone, Debug, PartialEq, Eq)]
pub struct Message {
    pub kind: MessageKind,
    pub cid: Option<ZInt>,
    pub reply_context: Option<ReplyContext>,
    pub properties: Option<Vec<Property>>,
    pub body: Body,
}

/// What a [`Message`] holds.
pub struct MessageView {
    pub kind: MessageKind,
    pub cid: Option<ZInt>,
    pub reply_context: Option<ReplyContextView>,
    pub properties: Option<Seq<PropertyView>>,
    pub body: BodyView,
}

impl View for Message {
    type V = MessageView;

    open spec fn view(&self) -> MessageView {
        MessageView {
            kind: self.kind,
            cid: self.cid,
            reply_context: self.reply_context.deep_view(),
            properties: self.properties.deep_view(),
            body: self.body@,
        }
    }
}

impl DeepView for Message {
    type V = MessageView;

    open spec fn deep_view(&self) -> MessageView {
        self@
    }
}

} // verus!
