//! Where something that a face sends goes on to: the route for its name,
//! without the sender and without the faces that the sender does not talk
//! to through the broker.

use vstd::prelude::*;
use crate::routing::keys::{best_key, lemma_walk_end_found, resolves, rid_target, walk_end};
use crate::routing::names::concat;
use crate::routing::outbound::RoutingError;
use crate::routing::pubsub::{copy_route, lemma_route_copy, relays};
use crate::routing::resource::RouteEntry;
use crate::routing::routes::{
    interested, lemma_route_has_push, route_distinct, route_for, route_has, route_keys, Seek,
};
use crate::routing::tables::Tables;
use crate::types::{ResKeyView, ResourceId, NO_RESOURCE_ID};

verus! {

impl Tables {
    /// The entry `e` is one to hand on to what the face `from` sent for the
    /// name of the resource `prefix` followed by `suffix`: its face is
    /// another face, attached, not a peer if the sender is one, that has
    /// declared what `what` looks for on a resource that intersects the
    /// name; its key is the best key for that face, which the face reads as
    /// the name.
    pub open(crate) spec fn hop_ok(
        &self,
        from: usize,
        prefix: usize,
        suffix: Seq<char>,
        what: Seek,
        e: RouteEntry,
    ) -> bool {
        &&& self.tells(from, e.face)
        &&& interested(self.resources@, e.face, self.name(prefix) + suffix, what)
        &&& self.key_name(e.face, ResKeyView::from_parts(e.rid, e.suffix@)) == Some(
            self.name(prefix) + suffix,
        )
        &&& (e.rid, e.suffix@) == best_key(self.resources@, prefix as int, suffix, e.face)
    }

    /// The entries `hops` are where what the face `from` sent for the name
    /// of the resource `prefix` followed by `suffix` goes on to: each is
    /// one to hand on to; every face to hand on to has an entry; no face
    /// has two.
    pub open(crate) spec fn hops_for(
        &self,
        from: usize,
        prefix: usize,
        suffix: Seq<char>,
        what: Seek,
        hops: Seq<RouteEntry>,
    ) -> bool {
        &&& forall|k: int|
            0 <= k < hops.len() ==> self.hop_ok(from, prefix, suffix, what, #[trigger] hops[k])
        &&& forall|g: usize|
            self.tells(from, g) && #[trigger] interested(
                self.resources@,
                g,
                self.name(prefix) + suffix,
                what,
            ) ==> route_has(hops, g)
        &&& route_distinct(hops)
    }

    /// A face reads a key that resolves to a name as that name.
    pub(crate) proof fn lemma_resolved_key(&self, e: RouteEntry, name: Seq<char>)
        requires
            self.wf(),
            self.has_face(e.face),
            resolves(self.resources@, self.faces@, e.face, e.rid, e.suffix@, name),
        ensures
            self.key_name(e.face, ResKeyView::from_parts(e.rid, e.suffix@)) == Some(name),
    {
        let rs = self.resources@;
        let fs = self.faces@;
        assert(rs[0].name@.len() == 0);
        assert(rs[0].name@ + name =~= name);
        if e.rid != NO_RESOURCE_ID && e.suffix@.len() == 0 {
            let q = rid_target(fs[e.face as int], e.rid)->0;
            assert(rs[q as int].name@ + Seq::<char>::empty() =~= rs[q as int].name@);
        }
    }

    /// The route for what the face `face` sends with the key made of `rid`
    /// and `suffix`: one entry for every face that has declared what `what`
    /// looks for on a resource that intersects the name of the key. Nothing
    /// where the face is not attached or has no resource for the id.
    pub(crate) fn route_to(&self, face: usize, rid: ResourceId, suffix: &str, what: Seek) -> (r:
        Option<Vec<RouteEntry>>)
        requires
            self.wf(),
        ensures
            r is Some == (self.has_face(face) && self.mapping(face, rid) is Some),
            r matches Some(route) ==> route_for(
                self.resources@,
                self.faces@,
                self.name(self.mapping(face, rid)->0) + suffix@,
                route@,
                what,
            ) && route_keys(self.resources@, route@, self.mapping(face, rid)->0 as int, suffix@),
    {
        if !(face < self.faces.len() && self.faces[face].attached) {
            return None;
        }
        let p = match self.get_mapping(face, rid) {
            Some(p) => p,
            None => {
                return None;
            },
        };
        let cached = match what {
            Seek::Subscribers => self.lookup(p, suffix),
            Seek::Queryables => None,
        };
        match cached {
            Some(n) => {
                let route = copy_route(&self.routes[n]);
                proof {
                    let rs = self.resources@;
                    lemma_route_copy(
                        rs,
                        self.faces@,
                        self.name(n),
                        self.routes@[n as int]@,
                        route@,
                        Seek::Subscribers,
                    );
                    lemma_walk_end_found(rs, p as int, suffix@);
                    let end = walk_end(rs, p as int, suffix@);
                    assert(end.1 =~= Seq::<char>::empty());
                    assert(walk_end(rs, n as int, Seq::<char>::empty()) == (
                        n as int,
                        Seq::<char>::empty(),
                    ));
                    assert forall|i: int| 0 <= i < route@.len() implies ((
                    #[trigger] route@[i]).rid, route@[i].suffix@) == best_key(
                        rs,
                        p as int,
                        suffix@,
                        route@[i].face,
                    ) by {
                        let e = self.routes@[n as int]@[i];
                        assert((e.rid, e.suffix@) == best_key(
                            rs,
                            n as int,
                            Seq::<char>::empty(),
                            e.face,
                        ));
                    }
                }
                Some(route)
            },
            None => {
                let name = concat(self.resources[p].name.as_str(), suffix);
                let ms = self.matches_of(name.as_str());
                Some(self.compute_route(&ms, p, suffix, what))
            },
        }
    }

    /// Where what the face `face` sends with the key made of `rid` and
    /// `suffix` goes on to: the route for the name of the key, without the
    /// face itself and, if it is a peer, without the other peers.
    pub(crate) fn hops(&self, face: usize, rid: ResourceId, suffix: &str, what: Seek) -> (r: Result<
        Vec<RouteEntry>,
        RoutingError,
    >)
        requires
            self.wf(),
        ensures
            match r {
                Err(RoutingError::ClosedSession) => !self.has_face(face),
                Err(RoutingError::UnknownRid) => self.has_face(face) && self.mapping(face, rid)
                    is None,
                Err(RoutingError::DuplicateRid) => false,
                Ok(hops) => self.has_face(face) && self.mapping(face, rid) is Some
                    && self.hops_for(face, self.mapping(face, rid)->0, suffix@, what, hops@),
            },
    {
        if !(face < self.faces.len() && self.faces[face].attached) {
            return Err(RoutingError::ClosedSession);
        }
        let route = match self.route_to(face, rid, suffix, what) {
            Some(route) => route,
            None => {
                return Err(RoutingError::UnknownRid);
            },
        };
        let ghost p = self.mapping(face, rid)->0;
        let ghost name = self.name(p) + suffix@;
        let ghost rs = self.resources@;
        let ghost fs = self.faces@;
        let from = self.faces[face].whatami;
        let mut hops: Vec<RouteEntry> = Vec::new();
        let mut i: usize = 0;
        while i < route.len()
            invariant
                i <= route@.len(),
                rs == self.resources@,
                fs == self.faces@,
                self.wf(),
                self.has_face(face),
                from == self.whatami(face),
                route_for(rs, fs, name, route@, what),
                route_keys(rs, route@, p as int, suffix@),
                name == self.name(p) + suffix@,
                forall|k: int|
                    0 <= k < hops@.len() ==> self.hop_ok(face, p, suffix@, what, #[trigger] hops@[k]),
                forall|k: int|
                    0 <= k < hops@.len() ==> exists|j: int|
                        0 <= j < i && (#[trigger] route@[j]).face == (#[trigger] hops@[k]).face,
                forall|j: int|
                    0 <= j < i && self.tells(face, (#[trigger] route@[j]).face) ==> route_has(
                        hops@,
                        route@[j].face,
                    ),
                route_distinct(hops@),
            decreases route@.len() - i,
        {
            let e = &route[i];
            let g = e.face;
            let ghost before = hops@;
            if g != face && relays(from, self.faces[g].whatami) {
                let h = RouteEntry { face: g, rid: e.rid, suffix: e.suffix.clone() };
                hops.push(h);
                proof {
                    assert(resolves(rs, fs, g, e.rid, e.suffix@, name));
                    self.lemma_resolved_key(h, name);
                    assert(self.hop_ok(face, p, suffix@, what, h));
                    assert forall|k: int| 0 <= k < hops@.len() implies self.hop_ok(
                        face,
                        p,
                        suffix@,
                        what,
                        #[trigger] hops@[k],
                    ) by {
                        if k < before.len() {
                            assert(hops@[k] == before[k]);
                        }
                    }
                    assert forall|a: int, b: int| 0 <= a < b < hops@.len() implies (
                    #[trigger] hops@[a]).face != (#[trigger] hops@[b]).face by {
                        if b == before.len() {
                            let j = choose|j: int|
                                0 <= j < i && (#[trigger] route@[j]).face == (
                                #[trigger] before[a]).face;
                            assert(route@[j].face != route@[i as int].face);
                        } else {
                            assert(before[a].face != before[b].face);
                        }
                    }
                    assert forall|k: int| 0 <= k < hops@.len() implies exists|j: int|
                        0 <= j < i + 1 && (#[trigger] route@[j]).face == (
                        #[trigger] hops@[k]).face by {
                        if k < before.len() {
                            let j = choose|j: int|
                                0 <= j < i && (#[trigger] route@[j]).face == (
                                #[trigger] before[k]).face;
                            assert(route@[j].face == hops@[k].face);
                        } else {
                            assert(route@[i as int].face == hops@[k].face);
                        }
                    }
                    assert forall|j: int|
                        0 <= j < i + 1 && self.tells(
                            face,
                            (#[trigger] route@[j]).face,
                        ) implies route_has(hops@, route@[j].face) by {
                        lemma_route_has_push(before, h, route@[j].face);
                    }
                }
            }
            i = i + 1;
        }
        proof {
            assert forall|g: usize|
                self.tells(face, g) && #[trigger] interested(
                    rs,
                    g,
                    self.name(p) + suffix@,
                    what,
                ) implies route_has(hops@, g) by {
                assert(route_has(route@, g));
                let j = choose|j: int| 0 <= j < route@.len() && (#[trigger] route@[j]).face == g;
                assert(self.tells(face, route@[j].face));
            }
        }
        Ok(hops)
    }
}

} // verus!
