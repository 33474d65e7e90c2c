//! The tables as their users see them: looking things up, the operations on
//! subscriptions and queryables under their names, and what always holds.

use vstd::prelude::*;
use crate::proto::decl::{Reliability, SubInfo, SubMode};
use crate::routing::declare::Interest;
use crate::routing::names::{key_intersect, lemma_key_intersect_symmetric};
use crate::routing::outbound::{Outbound, RoutingError};
use crate::routing::resource::{live, Context, RouteEntry};
use crate::routing::tables::Tables;
use crate::types::{ResourceId, WhatAmI};

verus! {

/// Some subscription: what it asks for does not matter where a
/// subscription ends.
pub open spec fn any_subscription() -> Interest {
    Interest::Subscription(
        SubInfo { reliability: Reliability::Reliable, mode: SubMode::Push, period: None },
    )
}

impl Tables {
    /// What the faces have declared on the resource `n`: one context for
    /// each face that has declared something.
    pub open(crate) spec fn contexts(&self, n: usize) -> Seq<Context> {
        self.resources@[n as int].contexts@
    }

    /// The root of the trie: the resource with the empty name.
    pub fn _get_root(&self) -> (r: usize)
        ensures
            r == Self::root(),
    {
        0
    }

    /// Whether the face `f` is attached.
    pub fn is_attached(&self, f: usize) -> (r: bool)
        ensures
            r == self.has_face(f),
    {
        f < self.faces.len() && self.faces[f].attached
    }

    /// The role of the face `f`.
    pub fn role(&self, f: usize) -> (r: WhatAmI)
        requires
            self.has_face(f),
        ensures
            r == self.whatami(f),
    {
        self.faces[f].whatami
    }

    /// The resource that the id `rid` stands for on the face `f`, if the
    /// face is attached and the id stands for one.
    pub fn resolve(&self, f: usize, rid: ResourceId) -> (r: Option<usize>)
        requires
            self.wf(),
        ensures
            r is Some ==> self.has_face(f),
            self.has_face(f) ==> r == self.mapping(f, rid),
            r matches Some(n) ==> self.is_live(n),
    {
        if f < self.faces.len() && self.faces[f].attached {
            self.get_mapping(f, rid)
        } else {
            None
        }
    }

    /// The resource that the id `rid` was given to on the face `f`, if the
    /// face is attached and the id was given to one.
    pub fn declared_resource(&self, f: usize, rid: ResourceId) -> (r: Option<usize>)
        requires
            self.wf(),
        ensures
            r is Some ==> self.has_face(f),
            self.has_face(f) ==> r == self.bound(f, rid),
            r matches Some(n) ==> self.is_live(n),
    {
        if f < self.faces.len() && self.faces[f].attached {
            self.get_bound(f, rid)
        } else {
            None
        }
    }

    /// The resource that is reached from `prefix` by following the chunks of
    /// `suffix`, if it is in the trie.
    pub fn get_resource(&self, prefix: usize, suffix: &str) -> (r: Option<usize>)
        requires
            self.wf(),
            self.is_live(prefix),
        ensures
            r == self.resource_at(prefix, suffix@),
            r matches Some(n) ==> self.is_live(n) && self.name(n) == self.name(prefix) + suffix@,
    {
        self.lookup(prefix, suffix)
    }

    /// What the face `f` has declared on the resource `n`.
    pub fn context_of(&self, n: usize, f: usize) -> (c: Context)
        requires
            self.wf(),
            n < self.spec_len(),
        ensures
            c == self.context(n, f),
    {
        self.get_context(n, f)
    }

    /// The live resources whose name intersects `name`, each once.
    pub fn get_matches(&self, name: &str) -> (r: Vec<usize>)
        ensures
            self.are_matches(r@, name@),
            forall|i: int, j: int| 0 <= i < j < r@.len() ==> r@[i] < r@[j],
    {
        self.matches_of(name)
    }

    /// The resources that the resource `n` keeps as its matches.
    pub fn matches_list(&self, n: usize) -> (r: &Vec<usize>)
        requires
            n < self.spec_len(),
        ensures
            r@ == self.matches(n),
    {
        &self.resources[n].matches
    }

    /// The route that is kept for the resource `n`.
    pub fn route_of(&self, n: usize) -> (r: &Vec<RouteEntry>)
        requires
            self.wf(),
            n < self.spec_len(),
        ensures
            r@ == self.route(n),
            self.is_live(n) ==> self.is_route(self.name(n), r@) && self.has_best_keys(
                r@,
                n,
                Seq::empty(),
            ),
    {
        &self.routes[n]
    }

    /// The matches of live resources are symmetric, and they are the
    /// resources whose names intersect: a live resource `s` is among the
    /// matches of a live resource `r` exactly if `r` is among those of `s`,
    /// and exactly if the names of the two intersect. A live resource is
    /// among its own matches, and only live resources are among matches.
    pub proof fn lemma_matches(&self, r: usize, s: usize)
        requires
            self.wf(),
            self.is_live(r),
        ensures
            self.matches(r).contains(r),
            self.matches(r).contains(s) ==> self.is_live(s),
            self.is_live(s) ==> (self.matches(r).contains(s) <==> self.matches(s).contains(r)),
            self.is_live(s) ==> (self.matches(r).contains(s) <==> key_intersect(
                self.name(r),
                self.name(s),
            )),
    {
        let rs = self.resources@;
        crate::routing::names::lemma_key_intersect_reflexive(rs[r as int].name@);
        lemma_key_intersect_symmetric(rs[r as int].name@, rs[s as int].name@);
        assert(key_intersect(rs[r as int].name@, rs[r as int].name@));
        assert(live(rs, r as int));
        if self.matches(r).contains(s) {
            let i = choose|i: int|
                0 <= i < rs[r as int].matches@.len() && rs[r as int].matches@[i] == s;
            assert(live(rs, rs[r as int].matches@[i] as int));
        }
        if self.is_live(s) {
            assert(live(rs, s as int));
            if self.matches(s).contains(r) {
                let i = choose|i: int|
                    0 <= i < rs[s as int].matches@.len() && rs[s as int].matches@[i] == r;
                assert(key_intersect(rs[s as int].name@, rs[rs[s as int].matches@[i] as int].name@));
            }
            if key_intersect(rs[r as int].name@, rs[s as int].name@) {
                assert(rs[r as int].matches@.contains(s));
                assert(key_intersect(rs[s as int].name@, rs[r as int].name@));
                assert(rs[s as int].matches@.contains(r));
            }
        }
    }

    /// Well-formed tables have a well-formed trie and are consistent: they
    /// meet what [`Tables::get_matches_from`], [`Tables::find_child`] and
    /// [`Tables::clean`] ask for.
    pub proof fn lemma_wf_parts(&self)
        requires
            self.wf(),
        ensures
            self.trie_ok(),
            self.consistent(),
    {
        assert(self.routes@.len() == self.resources@.len());
    }

    /// Every live resource but the root is held: a face has declared
    /// something on it, or it has a child.
    pub proof fn lemma_held(&self, n: usize)
        requires
            self.wf(),
            self.is_live(n),
            n != Self::root(),
        ensures
            self.children(n).len() > 0 || self.contexts(n).len() > 0,
    {
    }

    /// Declares a subscription of the face `face` to the resource with the
    /// name of the id `prefixid` followed by `suffix`.
    pub fn declare_subscription(
        &mut self,
        face: usize,
        prefixid: ResourceId,
        suffix: &str,
        sub_info: &SubInfo,
    ) -> (r: Result<Vec<Outbound>, RoutingError>)
        requires
            old(self).wf(),
        ensures
            final(self).wf(),
            r is Ok == (old(self).has_face(face) && old(self).mapping(face, prefixid) is Some),
            final(self).declare_done(
                *old(self),
                face,
                prefixid,
                suffix@,
                Interest::Subscription(*sub_info),
                r,
            ),
    {
        self.declare(face, prefixid, suffix, Interest::Subscription(*sub_info))
    }

    /// Ends the subscription of the face `face` to the resource with the
    /// name of the id `prefixid` followed by `suffix`.
    pub fn undeclare_subscription(&mut self, face: usize, prefixid: ResourceId, suffix: &str) -> (r:
        Result<Vec<Outbound>, RoutingError>)
        requires
            old(self).wf(),
        ensures
            final(self).wf(),
            r is Ok == (old(self).has_face(face) && old(self).mapping(face, prefixid) is Some),
            final(self).undeclare_done(
                *old(self),
                face,
                prefixid,
                suffix@,
                any_subscription(),
                r,
            ),
    {
        let what = Interest::Subscription(
            SubInfo { reliability: Reliability::Reliable, mode: SubMode::Push, period: None },
        );
        self.undeclare(face, prefixid, suffix, what)
    }

    /// Declares that the face `face` answers queries on the resource with
    /// the name of the id `prefixid` followed by `suffix`.
    pub fn declare_queryable(&mut self, face: usize, prefixid: ResourceId, suffix: &str) -> (r:
        Result<Vec<Outbound>, RoutingError>)
        requires
            old(self).wf(),
        ensures
            final(self).wf(),
            r is Ok == (old(self).has_face(face) && old(self).mapping(face, prefixid) is Some),
            final(self).declare_done(*old(self), face, prefixid, suffix@, Interest::Queryable, r),
    {
        self.declare(face, prefixid, suffix, Interest::Queryable)
    }

    /// Takes back that the face `face` answers queries on the resource with
    /// the name of the id `prefixid` followed by `suffix`.
    pub fn undeclare_queryable(&mut self, face: usize, prefixid: ResourceId, suffix: &str) -> (r:
        Result<Vec<Outbound>, RoutingError>)
        requires
            old(self).wf(),
        ensures
            final(self).wf(),
            r is Ok == (old(self).has_face(face) && old(self).mapping(face, prefixid) is Some),
            final(self).undeclare_done(*old(self), face, prefixid, suffix@, Interest::Queryable, r),
    {
        self.undeclare(face, prefixid, suffix, Interest::Queryable)
    }
}

} // verus!
