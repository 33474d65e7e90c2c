//! The tables behind a face: what a call of the primitives that comes in
//! from a face does to the tables, and what the tables ask of other faces
//! in return.

use vstd::prelude::*;
use crate::proto::primitives::{Call, CallView};
use crate::routing::api::any_subscription;
use crate::routing::declare::Interest;
use crate::routing::outbound::{Outbound, RoutingError};
use crate::routing::tables::Tables;
use crate::types::ResKeyView;

verus! {

impl Tables {
    /// What [`Tables::handle_call`] does with the call `call` of the face
    /// `face`, where `r` is its result.
    ///
    /// A declaration of a resource, of a subscription or of a queryable, and
    /// the end of one, are applied to the tables; data is routed to the
    /// subscribers; a `close` detaches the face. Storages and evaluators
    /// both are queryables. Publishers and pulls need no state in the
    /// tables, and queries and their answers are the business of the router
    /// that has the tables: here these calls change nothing and ask nothing
    /// of anybody.
    pub open(crate) spec fn handled(
        &self,
        pre: Tables,
        face: usize,
        call: CallView,
        r: Result<Vec<Outbound>, RoutingError>,
    ) -> bool {
        match call {
            CallView::Resource { rid, reskey } => self.resource_declared(
                pre,
                face,
                rid,
                reskey,
                r,
            ),
            CallView::ForgetResource { rid } => self.resource_undeclared(pre, face, rid, r),
            CallView::Subscriber { reskey, sub_info } => self.declare_done(
                pre,
                face,
                reskey.rid(),
                reskey.suffix(),
                Interest::Subscription(sub_info),
                r,
            ),
            CallView::ForgetSubscriber { reskey } => self.undeclare_done(
                pre,
                face,
                reskey.rid(),
                reskey.suffix(),
                any_subscription(),
                r,
            ),
            CallView::Storage { reskey } => self.declare_done(
                pre,
                face,
                reskey.rid(),
                reskey.suffix(),
                Interest::Queryable,
                r,
            ),
            CallView::Eval { reskey } => self.declare_done(
                pre,
                face,
                reskey.rid(),
                reskey.suffix(),
                Interest::Queryable,
                r,
            ),
            CallView::ForgetStorage { reskey } => self.undeclare_done(
                pre,
                face,
                reskey.rid(),
                reskey.suffix(),
                Interest::Queryable,
                r,
            ),
            CallView::ForgetEval { reskey } => self.undeclare_done(
                pre,
                face,
                reskey.rid(),
                reskey.suffix(),
                Interest::Queryable,
                r,
            ),
            CallView::Data { reskey, reliable, info, payload } => *self == pre && pre.data_handled(
                face,
                reskey,
                reliable,
                info,
                payload,
                r,
            ),
            CallView::Close => match r {
                Err(e) => e == RoutingError::ClosedSession && !pre.has_face(face) && *self == pre,
                Ok(out) => pre.has_face(face) && !self.has_face(face) && self.detached(pre, face)
                    && out@.len() == 0,
            },
            _ => *self == pre && (match r {
                Ok(out) => pre.has_face(face) && out@.len() == 0,
                Err(e) => e == RoutingError::ClosedSession && !pre.has_face(face),
            }),
        }
    }

    /// What giving the id `rid` to the resource of the key `key` did.
    pub open(crate) spec fn resource_declared(
        &self,
        pre: Tables,
        face: usize,
        rid: u64,
        key: ResKeyView,
        r: Result<Vec<Outbound>, RoutingError>,
    ) -> bool {
        &&& self.keeps_faces(pre)
        &&& self.keeps_names(pre)
        &&& self.keeps_subs(pre)
        &&& self.keeps_ids_but(pre, face, rid)
        &&& match r {
            Err(RoutingError::ClosedSession) => !pre.has_face(face) && *self == pre,
            Err(RoutingError::UnknownRid) => pre.has_face(face) && pre.mapping(face, key.rid())
                is None && *self == pre,
            Err(RoutingError::DuplicateRid) => {
                &&& pre.has_face(face)
                &&& pre.mapping(face, key.rid()) matches Some(p)
                &&& pre.bound(face, rid) matches Some(n)
                &&& pre.name(n) != pre.name(p) + key.suffix()
                &&& *self == pre
            },
            Ok(out) => {
                &&& out@.len() == 0
                &&& pre.has_face(face)
                &&& pre.mapping(face, key.rid()) matches Some(p)
                &&& pre.bound(face, rid) matches Some(q) ==> pre.name(q) == pre.name(p)
                    + key.suffix() && *self == pre
                &&& self.bound(face, rid) matches Some(n)
                &&& self.is_live(n)
                &&& self.name(n) == pre.name(p) + key.suffix()
                &&& pre.bound(face, rid) is None ==> self.resource_at(p, key.suffix()) == Some(n)
                &&& self.made_for(pre, n)
                &&& pre.bound(face, rid) is None ==> self.ids_but(
                    pre,
                    n,
                    face,
                    crate::routing::faces::with_rid(pre.context_or_none(n, face), rid, false),
                )
            },
        }
    }

    /// What taking the id `rid` back did.
    pub open(crate) spec fn resource_undeclared(
        &self,
        pre: Tables,
        face: usize,
        rid: u64,
        r: Result<Vec<Outbound>, RoutingError>,
    ) -> bool {
        &&& self.keeps_faces(pre)
        &&& self.keeps_names_of_live(pre)
        &&& self.keeps_subs(pre)
        &&& self.keeps_ids_but(pre, face, rid)
        &&& match r {
            Err(RoutingError::ClosedSession) => !pre.has_face(face) && *self == pre,
            Err(RoutingError::UnknownRid) => pre.has_face(face) && pre.bound(face, rid) is None
                && *self == pre,
            Err(RoutingError::DuplicateRid) => false,
            Ok(out) => {
                &&& out@.len() == 0
                &&& pre.has_face(face)
                &&& pre.bound(face, rid) matches Some(n)
                &&& self.bound(face, rid) is None
                &&& self.ids_but(pre, n, face, pre.ctx_without(face, rid, n))
                &&& forall|m: usize|
                    pre.is_live(m) && !(#[trigger] self.is_live(m)) ==> pre.above(n, m)
            },
        }
    }

    /// What routing the data of a DATA call did.
    pub open(crate) spec fn data_handled(
        &self,
        face: usize,
        key: ResKeyView,
        reliable: bool,
        info: Option<Seq<u8>>,
        payload: Seq<u8>,
        r: Result<Vec<Outbound>, RoutingError>,
    ) -> bool {
        match r {
            Err(RoutingError::ClosedSession) => !self.has_face(face),
            Err(RoutingError::UnknownRid) => self.has_face(face) && self.mapping(face, key.rid())
                is None,
            Err(RoutingError::DuplicateRid) => false,
            Ok(out) => self.has_face(face) && self.mapping(face, key.rid()) is Some
                && self.data_routed(
                face,
                self.mapping(face, key.rid())->0,
                key.suffix(),
                reliable,
                info,
                payload,
                out@,
            ),
        }
    }

    /// A call that does not end the session leaves every face attached or
    /// not as it was.
    pub(crate) proof fn lemma_handled_keeps_faces(
        &self,
        pre: Tables,
        face: usize,
        call: CallView,
        r: Result<Vec<Outbound>, RoutingError>,
    )
        requires
            self.handled(pre, face, call, r),
            !(call is Close),
        ensures
            forall|g: usize| #[trigger] self.has_face(g) == pre.has_face(g),
    {
    }

    /// Does what the call `call`, which came in from the face `face`, asks
    /// of the tables. The result is what to ask of other faces in return.
    pub fn handle_call(&mut self, face: usize, call: Call) -> (r: Result<Vec<Outbound>, RoutingError>)
        requires
            old(self).wf(),
        ensures
            final(self).wf(),
            final(self).handled(*old(self), face, call@, r),
    {
        match call {
            Call::Resource { rid, reskey } => {
                match self.declare_resource(face, rid, reskey.rid(), reskey.suffix()) {
                    Ok(()) => Ok(Vec::new()),
                    Err(e) => Err(e),
                }
            },
            Call::ForgetResource { rid } => {
                match self.undeclare_resource(face, rid) {
                    Ok(()) => Ok(Vec::new()),
                    Err(e) => Err(e),
                }
            },
            Call::Subscriber { reskey, sub_info } => self.declare_subscription(
                face,
                reskey.rid(),
                reskey.suffix(),
                &sub_info,
            ),
            Call::ForgetSubscriber { reskey } => self.undeclare_subscription(
                face,
                reskey.rid(),
                reskey.suffix(),
            ),
            Call::Storage { reskey } => self.declare_queryable(face, reskey.rid(), reskey.suffix()),
            Call::Eval { reskey } => self.declare_queryable(face, reskey.rid(), reskey.suffix()),
            Call::ForgetStorage { reskey } => self.undeclare_queryable(
                face,
                reskey.rid(),
                reskey.suffix(),
            ),
            Call::ForgetEval { reskey } => self.undeclare_queryable(
                face,
                reskey.rid(),
                reskey.suffix(),
            ),
            Call::Data { reskey, reliable, info, payload } => self.route_data(
                face,
                reskey.rid(),
                reskey.suffix(),
                reliable,
                &info,
                &payload,
            ),
            Call::Close => {
                match self.undeclare_session(face) {
                    Ok(()) => Ok(Vec::new()),
                    Err(e) => Err(e),
                }
            },
            _ => {
                if self.is_attached(face) {
                    Ok(Vec::new())
                } else {
                    Err(RoutingError::ClosedSession)
                }
            },
        }
    }
}

} // verus!
