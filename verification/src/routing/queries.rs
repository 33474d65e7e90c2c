//! Queries: handing a query on to those who can answer it.

use vstd::prelude::*;
use vstd::string::StringExecFns;
use crate::proto::msg::{QueryConsolidation, QueryTarget};
use crate::proto::primitives::{Call, CallView};
use crate::routing::outbound::{Outbound, RoutingError};
use crate::routing::pubsub::outs_to;
use crate::routing::routes::{interested, route_has, Seek};
use crate::routing::tables::Tables;
use crate::types::{ResKey, ResKeyView, ResourceId, ZInt};

verus! {

/// What a query asks, apart from its key.
#[derive(Clone, Copy, Debug, PartialEq, Eq)]
pub struct Question<'a> {
    pub predicate: &'a str,
    pub qid: ZInt,
    pub target: Option<QueryTarget>,
    pub consolidation: QueryConsolidation,
}

/// What a [`Question`] holds.
pub struct QuestionView {
    pub predicate: Seq<char>,
    pub qid: ZInt,
    pub target: Option<QueryTarget>,
    pub consolidation: QueryConsolidation,
}

impl<'a> View for Question<'a> {
    type V = QuestionView;

    open spec fn view(&self) -> QuestionView {
        QuestionView {
            predicate: self.predicate@,
            qid: self.qid,
            target: self.target,
            consolidation: self.consolidation,
        }
    }
}

impl QuestionView {
    /// The query call that asks this with the key `reskey`.
    pub open spec fn call(self, reskey: ResKeyView) -> CallView {
        CallView::Query {
            reskey,
            predicate: self.predicate,
            qid: self.qid,
            target: self.target,
            consolidation: self.consolidation,
        }
    }
}

impl Tables {
    /// The face `g` answers queries on a resource whose name intersects `name`.
    pub open(crate) spec fn has_queryable(&self, g: usize, name: Seq<char>) -> bool {
        interested(self.resources@, g, name, Seek::Queryables)
    }

    /// The call `o` hands the query on to a face that it is for: another
    /// face, attached, not a peer if the sender is one, that answers
    /// queries on a resource that intersects the name of the query; the key
    /// of the call is the best key for that face, which the face reads as
    /// that name.
    pub open(crate) spec fn query_call_ok(
        &self,
        from: usize,
        prefix: usize,
        suffix: Seq<char>,
        asked: QuestionView,
        o: Outbound,
    ) -> bool {
        &&& self.tells(from, o.face)
        &&& self.has_queryable(o.face, self.name(prefix) + suffix)
        &&& o.call@ == asked.call(self.best_reskey(prefix, suffix, o.face))
        &&& self.key_name(o.face, self.best_reskey(prefix, suffix, o.face)) == Some(
            self.name(prefix) + suffix,
        )
    }

    /// The calls `out` route the query that the face `from` sent for the
    /// name of the resource `prefix` followed by `suffix`: every call hands
    /// the query on to a face that it is for; every such face gets a call;
    /// no face gets two.
    pub open(crate) spec fn query_routed(
        &self,
        from: usize,
        prefix: usize,
        suffix: Seq<char>,
        asked: QuestionView,
        out: Seq<Outbound>,
    ) -> bool {
        &&& forall|k: int|
            0 <= k < out.len() ==> self.query_call_ok(from, prefix, suffix, asked, #[trigger] out[k])
        &&& forall|g: usize|
            self.tells(from, g) && #[trigger] self.has_queryable(
                g,
                self.name(prefix) + suffix,
            ) ==> outs_to(out, g)
        &&& forall|a: int, b: int|
            0 <= a < b < out.len() ==> (#[trigger] out[a]).face != (#[trigger] out[b]).face
    }

    /// Routes the query that the face `face` sends with the key made of
    /// `rid` and `suffix`: a QUERY call for every other face that answers
    /// queries on a resource that intersects the name of the query, unless
    /// both faces are peers, with a key that the receiving face reads as
    /// that name.
    pub fn route_query(&self, face: usize, rid: ResourceId, suffix: &str, asked: Question) -> (r:
        Result<Vec<Outbound>, RoutingError>)
        requires
            self.wf(),
        ensures
            match r {
                Err(RoutingError::ClosedSession) => !self.has_face(face),
                Err(RoutingError::UnknownRid) => self.has_face(face) && self.mapping(face, rid)
                    is None,
                Err(RoutingError::DuplicateRid) => false,
                Ok(out) => self.has_face(face) && self.mapping(face, rid) is Some
                    && self.query_routed(face, self.mapping(face, rid)->0, suffix@, asked@, out@),
            },
    {
        let hops = match self.hops(face, rid, suffix, Seek::Queryables) {
            Ok(hops) => hops,
            Err(e) => {
                return Err(e);
            },
        };
        let ghost p = self.mapping(face, rid)->0;
        let mut out: Vec<Outbound> = Vec::new();
        let mut i: usize = 0;
        while i < hops.len()
            invariant
                i <= hops@.len(),
                out@.len() == i,
                forall|k: int|
                    0 <= k < i ==> (#[trigger] out@[k]).face == hops@[k].face && out@[k].call@
                        == asked@.call(ResKeyView::from_parts(hops@[k].rid, hops@[k].suffix@)),
            decreases hops@.len() - i,
        {
            let e = &hops[i];
            let call = Call::Query {
                reskey: ResKey::from_parts(e.rid, e.suffix.clone()),
                predicate: String::from_str(asked.predicate),
                qid: asked.qid,
                target: asked.target,
                consolidation: asked.consolidation,
            };
            out.push(Outbound { face: e.face, call });
            i = i + 1;
        }
        proof {
            assert forall|k: int| 0 <= k < out@.len() implies self.query_call_ok(
                face,
                p,
                suffix@,
                asked@,
                #[trigger] out@[k],
            ) by {
                assert(self.hop_ok(face, p, suffix@, Seek::Queryables, hops@[k]));
            }
            assert forall|g: usize|
                self.tells(face, g) && #[trigger] self.has_queryable(
                    g,
                    self.name(p) + suffix@,
                ) implies outs_to(out@, g) by {
                assert(route_has(hops@, g));
                let j = choose|j: int| 0 <= j < hops@.len() && (#[trigger] hops@[j]).face == g;
                assert(out@[j].face == g);
            }
            assert forall|a: int, b: int| 0 <= a < b < out@.len() implies (#[trigger] out@[a]).face
                != (#[trigger] out@[b]).face by {
                assert(hops@[a].face != hops@[b].face);
            }
        }
        Ok(out)
    }
}

} // verus!
