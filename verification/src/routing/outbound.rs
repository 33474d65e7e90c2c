//! What the tables hand back: the calls to make on faces, and the reasons
//! for which a request is refused.

use vstd::prelude::*;
use crate::proto::decl::SubInfo;
use crate::proto::primitives::{Call, CallView};
use crate::types::ResKeyView;

verus! {

/// A call to make on a face.
#[derive(Clone, Debug, PartialEq, Eq)]
pub struct Outbound {
    pub face: usize,
    pub call: Call,
}

/// Why the tables refuse a request.
#[derive(Clone, Copy, Debug, PartialEq, Eq, Structural)]
pub enum RoutingError {
    /// The face is not attached.
    ClosedSession,
    /// The face has no resource for the id.
    UnknownRid,
    /// The id stands for a resource with another name.
    DuplicateRid,
}

/// The reason given to a face whose session is closed because it used an id
/// that stands for nothing.
pub const REASON_UNKNOWN_RID: u8 = 1;

/// The reason given to a face whose session is closed because it gave an id
/// to a second name.
pub const REASON_DUPLICATE_RID: u8 = 2;

/// The reason given where there is nothing to say.
pub const REASON_GENERIC: u8 = 0;

impl RoutingError {
    /// The session of a face whose call is refused for this reason is
    /// closed: the ids of the face and those of the broker do not agree any
    /// more. A call of a face that is not attached closes nothing.
    pub open spec fn spec_ends_session(self) -> bool {
        self != RoutingError::ClosedSession
    }

    /// Whether the session of a face whose call is refused for this reason
    /// is closed.
    pub fn ends_session(&self) -> (r: bool)
        ensures
            r == self.spec_ends_session(),
    {
        match self {
            RoutingError::ClosedSession => false,
            RoutingError::UnknownRid => true,
            RoutingError::DuplicateRid => true,
        }
    }

    /// The reason to give in the CLOSE message for this refusal.
    pub open spec fn spec_reason(self) -> u8 {
        match self {
            RoutingError::ClosedSession => REASON_GENERIC,
            RoutingError::UnknownRid => REASON_UNKNOWN_RID,
            RoutingError::DuplicateRid => REASON_DUPLICATE_RID,
        }
    }

    /// The reason to give in the CLOSE message for this refusal.
    pub fn reason(&self) -> (r: u8)
        ensures
            r == self.spec_reason(),
    {
        match self {
            RoutingError::ClosedSession => REASON_GENERIC,
            RoutingError::UnknownRid => REASON_UNKNOWN_RID,
            RoutingError::DuplicateRid => REASON_DUPLICATE_RID,
        }
    }
}

/// Among the calls `out` there is the call `c` on the face `f`.
pub open spec fn says(out: Seq<Outbound>, f: usize, c: CallView) -> bool {
    exists|i: int| 0 <= i < out.len() && (#[trigger] out[i]).face == f && out[i].call@ == c
}

/// The call that tells of a subscription to the resource named `name`.
pub open spec fn sub_call(name: Seq<char>, info: SubInfo) -> CallView {
    CallView::Subscriber { reskey: ResKeyView::RName(name), sub_info: info }
}

/// The call that tells of a queryable on the resource named `name`.
pub open spec fn qabl_call(name: Seq<char>) -> CallView {
    CallView::Storage { reskey: ResKeyView::RName(name) }
}

/// What was among the calls is among them after one more, and so is that one.
pub proof fn lemma_says_push(out: Seq<Outbound>, o: Outbound, f: usize, c: CallView)
    ensures
        says(out, f, c) ==> says(out.push(o), f, c),
        says(out.push(o), o.face, o.call@),
{
    if says(out, f, c) {
        let i = choose|i: int| 0 <= i < out.len() && (#[trigger] out[i]).face == f && out[i].call@ == c;
        assert(out.push(o)[i] == out[i]);
    }
    assert(out.push(o)[out.len() as int] == o);
}

} // verus!
