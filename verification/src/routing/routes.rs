//! Routes: for a name, the faces that data for it goes to, and the key to
//! use on each of them.

use vstd::prelude::*;
use crate::routing::face::Face;
use crate::routing::keys::{best_key, resolves};
use crate::routing::names::key_intersect;
use crate::routing::resource::{
    ctx_of, ctx_pos, lemma_ctx_pos, lemma_ctx_pos_at, live, structure_ok, Context, Resource,
    RouteEntry,
};
use crate::routing::tables::{contexts_ok, core_ok, ctx_ok, mappings_ok, Tables};

verus! {

/// Whom a route leads to: those who subscribed, or those who answer queries.
#[derive(Clone, Copy, Debug, PartialEq, Eq, Structural)]
pub enum Seek {
    Subscribers,
    Queryables,
}

impl Context {
    /// The face has declared what `what` looks for.
    pub open spec fn spec_wants(self, what: Seek) -> bool {
        match what {
            Seek::Subscribers => self.subs is Some,
            Seek::Queryables => self.qabl,
        }
    }

    /// Whether the face has declared what `what` looks for.
    pub fn wants(&self, what: Seek) -> (r: bool)
        ensures
            r == self.spec_wants(what),
    {
        match what {
            Seek::Subscribers => self.subs.is_some(),
            Seek::Queryables => self.qabl,
        }
    }
}

/// The face `f` has declared on the node `m` what `what` looks for.
pub open(crate) spec fn wants(rs: Seq<Resource>, m: int, f: usize, what: Seek) -> bool {
    ctx_of(rs[m].contexts@, f).spec_wants(what)
}

/// The face `f` has declared what `what` looks for on a live resource whose
/// name intersects `name`.
pub open(crate) spec fn interested(rs: Seq<Resource>, f: usize, name: Seq<char>, what: Seek) -> bool {
    exists|m: int| live(rs, m) && key_intersect(name, rs[m].name@) && #[trigger] wants(rs, m, f, what)
}

/// The route has an entry for the face `f`.
pub open spec fn route_has(route: Seq<RouteEntry>, f: usize) -> bool {
    exists|i: int| 0 <= i < route.len() && (#[trigger] route[i]).face == f
}

/// Every entry of the route is for an attached face that has declared what
/// `k` looks for on a resource that intersects `name`, with a key that the
/// face reads as `name`.
pub open(crate) spec fn route_sound(
    rs: Seq<Resource>,
    fs: Seq<Face>,
    name: Seq<char>,
    route: Seq<RouteEntry>,
    what: Seek,
) -> bool {
    forall|i: int|
        0 <= i < route.len() ==> {
            let e = #[trigger] route[i];
            &&& e.face < fs.len()
            &&& fs[e.face as int].attached
            &&& interested(rs, e.face, name, what)
            &&& resolves(rs, fs, e.face, e.rid, e.suffix@, name)
        }
}

/// No face has two entries in the route.
pub open spec fn route_distinct(route: Seq<RouteEntry>) -> bool {
    forall|i: int, j: int|
        0 <= i < j < route.len() ==> (#[trigger] route[i]).face != (#[trigger] route[j]).face
}

/// The route is the route for `name`: it holds one entry for every face that
/// has declared what `what` looks for on a resource that intersects `name`, and
/// no other entry.
pub open(crate) spec fn route_for(
    rs: Seq<Resource>,
    fs: Seq<Face>,
    name: Seq<char>,
    route: Seq<RouteEntry>,
    what: Seek,
) -> bool {
    &&& route_sound(rs, fs, name, route, what)
    &&& forall|f: usize| #[trigger] interested(rs, f, name, what) ==> route_has(route, f)
    &&& route_distinct(route)
}

/// Every key of the route is the best key for its face for the name of the
/// node `prefix` followed by `suffix`.
pub open(crate) spec fn route_keys(
    rs: Seq<Resource>,
    route: Seq<RouteEntry>,
    prefix: int,
    suffix: Seq<char>,
) -> bool {
    forall|i: int|
        0 <= i < route.len() ==> ((#[trigger] route[i]).rid, route[i].suffix@) == best_key(
            rs,
            prefix,
            suffix,
            route[i].face,
        )
}

/// Every live resource has the route for its name, with the best keys.
pub open(crate) spec fn routes_ok(
    rs: Seq<Resource>,
    fs: Seq<Face>,
    routes: Seq<Vec<RouteEntry>>,
) -> bool {
    &&& routes.len() == rs.len()
    &&& forall|n: int|
        live(rs, n) ==> route_for(
            rs,
            fs,
            rs[n].name@,
            #[trigger] routes[n]@,
            Seek::Subscribers,
        ) && route_keys(
            rs,
            routes[n]@,
            n,
            Seq::empty(),
        )
}

/// Whether the route has an entry for the face `f`.
pub fn route_has_face(route: &Vec<RouteEntry>, f: usize) -> (r: bool)
    ensures
        r == route_has(route@, f),
{
    let mut i: usize = 0;
    while i < route.len()
        invariant
            i <= route.len(),
            forall|k: int| 0 <= k < i ==> (#[trigger] route@[k]).face != f,
        decreases route.len() - i,
    {
        if route[i].face == f {
            return true;
        }
        i = i + 1;
    }
    false
}

/// A route with one more entry has an entry for every face that it had one for.
pub(crate) proof fn lemma_route_has_push(route: Seq<RouteEntry>, e: RouteEntry, f: usize)
    ensures
        route_has(route.push(e), f) == (route_has(route, f) || e.face == f),
{
    if route_has(route, f) {
        let i = choose|i: int| 0 <= i < route.len() && (#[trigger] route[i]).face == f;
        assert(route.push(e)[i].face == f);
    }
    if e.face == f {
        assert(route.push(e)[route.len() as int].face == f);
    }
    if route_has(route.push(e), f) {
        let i = choose|i: int|
            0 <= i < route.push(e).len() && (#[trigger] route.push(e)[i]).face == f;
        if i < route.len() {
            assert(route[i].face == f);
        }
    }
}

impl Tables {
    /// Every key of the route is the best key for its face for the name of
    /// the resource `prefix` followed by `suffix`: the id that the face has
    /// for the deepest resource on the way to that name, and what follows
    /// the name of that resource.
    pub open(crate) spec fn has_best_keys(
        &self,
        route: Seq<RouteEntry>,
        prefix: usize,
        suffix: Seq<char>,
    ) -> bool {
        route_keys(self.resources@, route, prefix as int, suffix)
    }

    /// The route that is kept for the resource `n`.
    pub open(crate) spec fn route(&self, n: usize) -> Seq<RouteEntry> {
        self.routes@[n as int]@
    }

    /// `ms` are the live resources whose name intersects `name`.
    pub open(crate) spec fn are_matches(&self, ms: Seq<usize>, name: Seq<char>) -> bool {
        &&& forall|k: int|
            0 <= k < ms.len() ==> self.is_live(#[trigger] ms[k]) && key_intersect(
                name,
                self.name(ms[k]),
            )
        &&& forall|m: usize|
            self.is_live(m) && #[trigger] key_intersect(name, self.name(m)) ==> ms.contains(m)
    }

    /// The route for the name of `prefix` followed by `suffix`, where `ms`
    /// are the resources that intersect that name: one entry for every face
    /// that has declared on one of them what `what` looks for, with the best
    /// key for that face.
    pub(crate) fn compute_route(
        &self,
        ms: &Vec<usize>,
        prefix: usize,
        suffix: &str,
        what: Seek,
    ) -> (r: Vec<RouteEntry>)
        requires
            structure_ok(self.resources@),
            contexts_ok(self.resources@, self.faces@),
            mappings_ok(self.resources@, self.faces@),
            self.is_live(prefix),
            self.are_matches(ms@, self.name(prefix) + suffix@),
        ensures
            route_for(self.resources@, self.faces@, self.name(prefix) + suffix@, r@, what),
            route_keys(self.resources@, r@, prefix as int, suffix@),
    {
        let ghost rs = self.resources@;
        let ghost fs = self.faces@;
        let ghost name = self.name(prefix) + suffix@;
        let mut route: Vec<RouteEntry> = Vec::new();
        let mut j: usize = 0;
        while j < ms.len()
            invariant
                j <= ms.len(),
                rs == self.resources@,
                fs == self.faces@,
                name == self.name(prefix) + suffix@,
                structure_ok(rs),
                contexts_ok(rs, fs),
                mappings_ok(rs, fs),
                self.is_live(prefix),
                self.are_matches(ms@, name),
                route_sound(rs, fs, name, route@, what),
                route_keys(rs, route@, prefix as int, suffix@),
                route_distinct(route@),
                forall|k: int, f: usize|
                    0 <= k < j && #[trigger] wants(rs, ms@[k] as int, f, what) ==> route_has(
                        route@,
                        f,
                    ),
            decreases ms.len() - j,
        {
            let m = ms[j];
            let ghost cs = rs[m as int].contexts@;
            let n_ctx = self.resources[m].contexts.len();
            let mut i: usize = 0;
            while i < n_ctx
                invariant
                    i <= n_ctx,
                    j < ms.len(),
                    m == ms@[j as int],
                    rs == self.resources@,
                    fs == self.faces@,
                    name == self.name(prefix) + suffix@,
                    cs == rs[m as int].contexts@,
                    n_ctx == cs.len(),
                    structure_ok(rs),
                    contexts_ok(rs, fs),
                    mappings_ok(rs, fs),
                    self.is_live(prefix),
                    self.are_matches(ms@, name),
                    route_sound(rs, fs, name, route@, what),
                    route_keys(rs, route@, prefix as int, suffix@),
                    route_distinct(route@),
                    forall|k: int, f: usize|
                        0 <= k < j && #[trigger] wants(rs, ms@[k] as int, f, what) ==> route_has(
                            route@,
                            f,
                        ),
                    forall|k: int|
                        0 <= k < i && (#[trigger] cs[k]).spec_wants(what) ==> route_has(
                            route@,
                            cs[k].face,
                        ),
                decreases n_ctx - i,
            {
                let c = self.resources[m].contexts[i];
                if c.wants(what) && !route_has_face(&route, c.face) {
                    let (rid, sfx) = self.get_best_key(prefix, suffix, c.face);
                    let ghost before = route@;
                    let e = RouteEntry { face: c.face, rid, suffix: sfx };
                    route.push(e);
                    proof {
                        assert(ctx_ok(rs[m as int].contexts@[i as int], fs));
                        lemma_ctx_pos_at(cs, i as int);
                        assert(wants(rs, m as int, c.face, what));
                        assert(interested(rs, c.face, name, what));
                        assert forall|k: int| 0 <= k < route@.len() implies {
                            let x = #[trigger] route@[k];
                            &&& x.face < fs.len()
                            &&& fs[x.face as int].attached
                            &&& interested(rs, x.face, name, what)
                            &&& resolves(rs, fs, x.face, x.rid, x.suffix@, name)
                        } by {
                            if k < before.len() {
                                assert(route@[k] == before[k]);
                            }
                        }
                        assert forall|a: int, b: int| 0 <= a < b < route@.len() implies (
                        #[trigger] route@[a]).face != (#[trigger] route@[b]).face by {
                            if b < before.len() {
                                assert(before[a].face != before[b].face);
                            } else {
                                assert(route@[a] == before[a]);
                            }
                        }
                        assert forall|k: int| 0 <= k < route@.len() implies ((
                        #[trigger] route@[k]).rid, route@[k].suffix@) == best_key(
                            rs,
                            prefix as int,
                            suffix@,
                            route@[k].face,
                        ) by {
                            if k < before.len() {
                                assert(route@[k] == before[k]);
                            }
                        }
                        assert forall|k: int, f: usize|
                            0 <= k < j && #[trigger] wants(rs, ms@[k] as int, f, what) implies route_has(route@, f) by {
                            lemma_route_has_push(before, e, f);
                        }
                        assert forall|k: int|
                            0 <= k < i + 1 && (#[trigger] cs[k]).spec_wants(what) implies route_has(
                            route@,
                            cs[k].face,
                        ) by {
                            lemma_route_has_push(before, e, cs[k].face);
                        }
                    }
                }
                i = i + 1;
            }
            proof {
                assert forall|k: int, f: usize|
                    0 <= k < j + 1 && #[trigger] wants(rs, ms@[k] as int, f, what) implies route_has(
                    route@,
                    f,
                ) by {
                    if k == j {
                        assert(crate::routing::resource::distinct_faces(cs));
                        lemma_ctx_pos(cs, f);
                        let p = ctx_pos(cs, f)->0;
                        assert(cs[p].spec_wants(what));
                    }
                }
            }
            j = j + 1;
        }
        let nres = self.resources.len();
        proof {
            assert(rs.len() == nres);
            assert forall|f: usize| #[trigger] interested(rs, f, name, what) implies route_has(
                route@,
                f,
            ) by {
                let m = choose|m: int|
                    live(rs, m) && key_intersect(name, rs[m].name@) && #[trigger] wants(rs, m, f, what);
                assert(self.is_live(m as usize));
                assert(key_intersect(name, self.name(m as usize)));
                assert(ms@.contains(m as usize));
                let k = choose|k: int| 0 <= k < ms@.len() && ms@[k] == m as usize;
                assert(wants(rs, ms@[k] as int, f, what));
            }
        }
        route
    }

    /// Makes the route of every live resource the route for its name.
    pub(crate) fn rebuild_routes(&mut self)
        requires
            old(self).consistent(),
        ensures
            final(self).resources@ == old(self).resources@,
            final(self).faces@ == old(self).faces@,
            routes_ok(final(self).resources@, final(self).faces@, final(self).routes@),
    {
        let ghost rs = self.resources@;
        let ghost fs = self.faces@;
        let empty = String::new();
        let mut n: usize = 0;
        while n < self.resources.len()
            invariant
                n <= rs.len(),
                rs == self.resources@,
                fs == self.faces@,
                core_ok(rs, fs),
                self.routes@.len() == rs.len(),
                empty@ == Seq::<char>::empty(),
                forall|m: int|
                    0 <= m < n && live(rs, m) ==> route_for(
                        rs,
                        fs,
                        rs[m].name@,
                        #[trigger] self.routes@[m]@,
                        Seek::Subscribers,
                    ) && route_keys(rs, self.routes@[m]@, m, Seq::empty()),
            decreases rs.len() - n,
        {
            if self.resources[n].alive {
                proof {
                    assert(self.name(n) + empty@ =~= self.name(n));
                    assert forall|m: usize|
                        self.is_live(m) && #[trigger] key_intersect(
                            self.name(n),
                            self.name(m),
                        ) implies self.resources@[n as int].matches@.contains(m) by {
                        assert(live(rs, n as int) && live(rs, m as int));
                        assert(key_intersect(rs[n as int].name@, rs[m as int].name@));
                    }
                }
                let r = self.compute_route(
                    &self.resources[n].matches,
                    n,
                    empty.as_str(),
                    Seek::Subscribers,
                );
                self.routes[n] = r;
            }
            n = n + 1;
        }
    }
}

} // verus!
