//! The faces of the tables and the ids that stand for resources on them.

use vstd::prelude::*;
use crate::routing::adverts::after_id;
use crate::routing::contexts::{ctx_put, ids_fit};
use crate::routing::face::{
    distinct_rids, find_mapping, find_mapping_pos, lemma_mapping_pos, lemma_mapping_push,
    lemma_mapping_remove, lemma_maps_to_at, lemma_maps_to_push, lemma_maps_to_remove, mapping_pos,
    Face, Mapping,
};
use crate::routing::keys::rid_target;
use crate::routing::resource::{ctx_of, ctx_pos, held_ok, lemma_ctx_pos, Context, Resource};
use crate::routing::tables::{
    contexts_ok, core_ok, ctx_ok, held_but, ids_mapped, mapping_ok, maps_to, Tables,
};
use crate::types::{ResourceId, WhatAmI, NO_RESOURCE_ID};

verus! {

/// The context `c` with the id `rid` of the given kind, unless it has one of
/// that kind that can be used in a key.
pub open spec fn with_rid(c: Context, rid: ResourceId, local: bool) -> Context {
    if local {
        Context {
            local_rid: if c.local_rid is Some {
                c.local_rid
            } else {
                Some(rid)
            },
            ..c
        }
    } else {
        Context {
            remote_rid: if c.remote_rid is Some && c.remote_rid != Some(NO_RESOURCE_ID) {
                c.remote_rid
            } else {
                Some(rid)
            },
            ..c
        }
    }
}

/// The context `c` where `other` takes the place of the id `rid` of the given kind.
pub open spec fn without_rid(
    c: Context,
    rid: ResourceId,
    local: bool,
    other: Option<ResourceId>,
) -> Context {
    if local {
        if c.local_rid == Some(rid) {
            Context { local_rid: other, ..c }
        } else {
            c
        }
    } else {
        if c.remote_rid == Some(rid) {
            Context { remote_rid: other, ..c }
        } else {
            c
        }
    }
}

/// The faces `b` are the faces `a`, but the face `f` has other ids.
pub open(crate) spec fn same_but_ids(a: Seq<Face>, b: Seq<Face>, f: int) -> bool {
    &&& a.len() == b.len()
    &&& forall|g: int|
        0 <= g < a.len() ==> {
            &&& (#[trigger] b[g]).id == a[g].id
            &&& b[g].whatami == a[g].whatami
            &&& b[g].attached == a[g].attached
            &&& g != f ==> b[g] == a[g]
        }
}

/// The id of the given kind that takes the place of one that has gone, for
/// the node `n`: the first among `ms` that stands for `n` and can be used in
/// a key; the id 0 where that is the only one; none where there is none.
pub open spec fn other_of(ms: Seq<Mapping>, n: usize, local: bool) -> Option<ResourceId>
    decreases ms.len(),
{
    if ms.len() == 0 {
        None
    } else {
        let before = other_of(ms.drop_last(), n, local);
        let m = ms.last();
        if before is Some && before != Some(NO_RESOURCE_ID) {
            before
        } else if m.res == n && m.local == local {
            Some(m.rid)
        } else {
            before
        }
    }
}

/// An id that can be used in a key, once found, is the one that is taken.
proof fn lemma_other_of_found(ms: Seq<Mapping>, j: int, n: usize, local: bool)
    requires
        0 <= j <= ms.len(),
        other_of(ms.take(j), n, local) is Some,
        other_of(ms.take(j), n, local) != Some(NO_RESOURCE_ID),
    ensures
        other_of(ms, n, local) == other_of(ms.take(j), n, local),
    decreases ms.len() - j,
{
    if j < ms.len() {
        assert(ms.take(j + 1).drop_last() =~= ms.take(j));
        lemma_other_of_found(ms, j + 1, n, local);
    } else {
        assert(ms.take(j) =~= ms);
    }
}

/// What `other_of` gives is an id of the given kind for the node.
proof fn lemma_other_of(ms: Seq<Mapping>, n: usize, local: bool)
    ensures
        match other_of(ms, n, local) {
            Some(x) => exists|j: int|
                0 <= j < ms.len() && (#[trigger] ms[j]).res == n && ms[j].local == local
                    && ms[j].rid == x,
            None => forall|j: int|
                0 <= j < ms.len() ==> !((#[trigger] ms[j]).res == n && ms[j].local == local),
        },
    decreases ms.len(),
{
    if ms.len() > 0 {
        let p = ms.drop_last();
        lemma_other_of(p, n, local);
        match other_of(ms, n, local) {
            Some(x) => {
                let before = other_of(p, n, local);
                if before is Some && before != Some(NO_RESOURCE_ID) {
                    let j = choose|j: int|
                        0 <= j < p.len() && (#[trigger] p[j]).res == n && p[j].local == local
                            && p[j].rid == x;
                    assert(ms[j] == p[j]);
                } else if ms.last().res == n && ms.last().local == local {
                    assert(ms[ms.len() - 1].rid == x);
                } else {
                    let j = choose|j: int|
                        0 <= j < p.len() && (#[trigger] p[j]).res == n && p[j].local == local
                            && p[j].rid == x;
                    assert(ms[j] == p[j]);
                }
            },
            None => {
                assert forall|j: int| 0 <= j < ms.len() implies !((#[trigger] ms[j]).res == n
                    && ms[j].local == local) by {
                    if j < p.len() {
                        assert(p[j] == ms[j]);
                    }
                }
            },
        }
    }
}

/// The id of the given kind that takes the place of one that has gone, for
/// the node `n`.
pub fn other_rid(ms: &Vec<Mapping>, n: usize, local: bool) -> (r: Option<ResourceId>)
    ensures
        r == other_of(ms@, n, local),
        match r {
            Some(x) => exists|j: int|
                0 <= j < ms@.len() && (#[trigger] ms@[j]).res == n && ms@[j].local == local
                    && ms@[j].rid == x,
            None => forall|j: int|
                0 <= j < ms@.len() ==> !((#[trigger] ms@[j]).res == n && ms@[j].local == local),
        },
{
    let mut found: Option<ResourceId> = None;
    let mut j: usize = 0;
    proof {
        assert(ms@.take(0) =~= Seq::empty());
        lemma_other_of(ms@, n, local);
    }
    while j < ms.len()
        invariant
            j <= ms.len(),
            found == other_of(ms@.take(j as int), n, local),
            found is None || found == Some(NO_RESOURCE_ID),
        decreases ms.len() - j,
    {
        proof {
            assert(ms@.take(j + 1).drop_last() =~= ms@.take(j as int));
        }
        if ms[j].res == n && ms[j].local == local {
            if ms[j].rid != NO_RESOURCE_ID {
                proof {
                    lemma_other_of_found(ms@, j + 1, n, local);
                }
                return Some(ms[j].rid);
            }
            found = Some(NO_RESOURCE_ID);
        }
        j = j + 1;
    }
    proof {
        assert(ms@.take(j as int) =~= ms@);
    }
    found
}

/// What holds of the contexts by themselves does not depend on the ids of the faces.
proof fn lemma_contexts_same_but_ids(rs: Seq<Resource>, a: Seq<Face>, b: Seq<Face>, f: int)
    requires
        contexts_ok(rs, a),
        same_but_ids(a, b, f),
    ensures
        contexts_ok(rs, b),
{
    assert forall|n: int, i: int| 0 <= n < rs.len() && 0 <= i < rs[n].contexts@.len() implies {
        let c = #[trigger] rs[n].contexts@[i];
        ctx_ok(c, b)
    } by {
        assert(ctx_ok(rs[n].contexts@[i], a));
    }
}

impl Tables {
    /// The resource that the id `rid` was given to on the face `f`, by the
    /// face or by the broker.
    pub open(crate) spec fn bound(&self, f: usize, rid: ResourceId) -> Option<usize> {
        rid_target(self.faces@[f as int], rid)
    }

    /// The resource that the id `rid` stands for in a key of the face `f`:
    /// the root for the id 0, which in a key stands for no resource,
    /// whatever it was given to; else the resource that the id was given to.
    pub open(crate) spec fn mapping(&self, f: usize, rid: ResourceId) -> Option<usize> {
        if rid == NO_RESOURCE_ID {
            Some(0usize)
        } else {
            self.bound(f, rid)
        }
    }

    /// The resource that the id `rid` was given to on the face `f`.
    pub(crate) fn get_bound(&self, f: usize, rid: ResourceId) -> (r: Option<usize>)
        requires
            core_ok(self.resources@, self.faces@),
            self.has_face(f),
        ensures
            r == self.bound(f, rid),
            r matches Some(n) ==> self.is_live(n),
    {
        let r = find_mapping(&self.faces[f].mappings, rid);
        proof {
            let ms = self.faces@[f as int].mappings@;
            lemma_mapping_pos(ms, rid);
            if let Some(i) = mapping_pos(ms, rid) {
                assert(mapping_ok(self.faces@[f as int].mappings@[i], f as int, self.resources@));
            }
        }
        r
    }

    /// The resource that the id `rid` stands for on the face `f`.
    pub(crate) fn get_mapping(&self, f: usize, rid: ResourceId) -> (r: Option<usize>)
        requires
            core_ok(self.resources@, self.faces@),
            self.has_face(f),
        ensures
            r == self.mapping(f, rid),
            r matches Some(n) ==> self.is_live(n),
    {
        if rid == NO_RESOURCE_ID {
            Some(0)
        } else {
            let r = find_mapping(&self.faces[f].mappings, rid);
            proof {
                let ms = self.faces@[f as int].mappings@;
                lemma_mapping_pos(ms, rid);
                if let Some(i) = mapping_pos(ms, rid) {
                    assert(mapping_ok(self.faces@[f as int].mappings@[i], f as int, self.resources@));
                }
            }
            r
        }
    }

    /// A new face with the role `whatami`.
    pub(crate) fn add_face(&mut self, whatami: WhatAmI) -> (f: usize)
        requires
            core_ok(old(self).resources@, old(self).faces@),
        ensures
            core_ok(final(self).resources@, final(self).faces@),
            final(self).resources@ == old(self).resources@,
            final(self).routes@ == old(self).routes@,
            f == old(self).faces@.len(),
            final(self).faces@.len() == f + 1,
            forall|g: int| 0 <= g < f ==> #[trigger] final(self).faces@[g] == old(self).faces@[g],
            final(self).has_face(f),
            final(self).whatami(f) == whatami,
            final(self).faces@[f as int].mappings@.len() == 0,
            final(self).faces@[f as int].next_local_id == 1,
    {
        let f = self.faces.len();
        self.faces.push(Face::new(f, whatami));
        proof {
            let rs = self.resources@;
            let a = old(self).faces@;
            let b = self.faces@;
            assert forall|n: int, i: int| 0 <= n < rs.len() && 0 <= i < rs[n].contexts@.len() implies {
                let c = #[trigger] rs[n].contexts@[i];
                ctx_ok(c, b)
            } by {
                assert(ctx_ok(rs[n].contexts@[i], a));
            }
            assert forall|g: int, i: int| 0 <= g < b.len() && 0 <= i < b[g].mappings@.len() implies mapping_ok(
                #[trigger] b[g].mappings@[i],
                g,
                rs,
            ) by {
                assert(mapping_ok(a[g].mappings@[i], g, rs));
            }
            assert forall|n: int, k: int| 0 <= n < rs.len() && 0 <= k < rs[n].contexts@.len() implies ids_mapped(
                #[trigger] rs[n].contexts@[k],
                n,
                b,
            ) by {
                assert(ctx_ok(rs[n].contexts@[k], a));
                assert(ids_mapped(rs[n].contexts@[k], n, a));
            }
        }
        f
    }

    /// Makes the id `rid`, which is free on the face `f`, stand for the
    /// resource `n` on that face, as an id that the broker gave (`local`) or
    /// that the face gave. The context of the face at `n` takes the id unless
    /// it has one of that kind that can be used in a key.
    pub(crate) fn bind(&mut self, f: usize, rid: ResourceId, n: usize, local: bool)
        requires
            core_ok(old(self).resources@, old(self).faces@),
            old(self).has_face(f),
            old(self).is_live(n),
            local ==> rid != NO_RESOURCE_ID,
            old(self).bound(f, rid) is None,
        ensures
            core_ok(final(self).resources@, final(self).faces@),
            final(self).routes@ == old(self).routes@,
            same_but_ids(old(self).faces@, final(self).faces@, f as int),
            final(self).faces@[f as int].mappings@ == old(self).faces@[f as int].mappings@.push(
                Mapping { rid, res: n, local },
            ),
            ctx_put(
                old(self).resources@,
                final(self).resources@,
                n as int,
                with_rid(old(self).context(n, f), rid, local),
            ),
            final(self).bound(f, rid) == Some(n),
            forall|r: ResourceId|
                r != rid ==> #[trigger] final(self).bound(f, r) == old(self).bound(f, r),
            final(self).faces@[f as int].next_local_id == (if local && rid >= old(
                self,
            ).faces@[f as int].next_local_id {
                after_id(rid)
            } else {
                old(self).faces@[f as int].next_local_id
            }),
            held_ok(old(self).resources@) ==> held_ok(final(self).resources@),
    {
        let ghost a = self.resources@;
        let ghost fs = self.faces@;
        let ghost ms = fs[f as int].mappings@;
        let c0 = self.get_context(n, f);
        let c1 = if local {
            Context {
                local_rid: if c0.local_rid.is_some() {
                    c0.local_rid
                } else {
                    Some(rid)
                },
                ..c0
            }
        } else {
            Context {
                remote_rid: match c0.remote_rid {
                    Some(r) => if r != NO_RESOURCE_ID {
                        c0.remote_rid
                    } else {
                        Some(rid)
                    },
                    None => Some(rid),
                },
                ..c0
            }
        };
        let m = Mapping { rid, res: n, local };
        proof {
            self.lemma_context_fits(n, f);
            lemma_mapping_pos(ms, rid);
            lemma_mapping_push(ms, m);
        }
        self.faces[f].mappings.push(m);
        if local && rid >= self.faces[f].next_local_id {
            self.faces[f].next_local_id = if rid < u64::MAX {
                rid + 1
            } else {
                rid
            };
        }
        let nfaces = self.faces.len();
        proof {
            lemma_contexts_same_but_ids(a, fs, self.faces@, f as int);
        }
        self.put_context(n, c1);
        proof {
            let b = self.resources@;
            let fs2 = self.faces@;
            let ms2 = fs2[f as int].mappings@;
            let cs = a[n as int].contexts@;
            let ds = b[n as int].contexts@;
            assert(ms2 == ms.push(m));
            assert(ctx_of(ds, f) == c1);
            assert forall|g: int, i: int|
                0 <= g < fs2.len() && 0 <= i < fs2[g].mappings@.len() implies mapping_ok(
                #[trigger] fs2[g].mappings@[i],
                g,
                b,
            ) by {
                let x = fs2[g].mappings@[i];
                if g == f && i == ms.len() {
                } else {
                    assert(x == fs[g].mappings@[i]);
                    assert(mapping_ok(fs[g].mappings@[i], g, a));
                    if x.res == n {
                        if g != f {
                            assert(ctx_of(ds, g as usize) == ctx_of(cs, g as usize));
                        }
                    } else {
                        assert(b[x.res as int].contexts@ == a[x.res as int].contexts@);
                    }
                }
            }
            assert(distinct_rids(ms));
            assert forall|g: int| 0 <= g < fs.len() && g != f implies fs2[g] == fs[g] by {}
            assert forall|q: int, k: int| 0 <= q < b.len() && 0 <= k < b[q].contexts@.len() implies ids_mapped(
                #[trigger] b[q].contexts@[k],
                q,
                fs2,
            ) by {
                let x = b[q].contexts@[k];
                if q == n && x == c1 {
                    assert(ids_fit(fs[f as int], n as int, c0));
                    assert(c1.face == f);
                    if let Some(r) = c1.remote_rid {
                        lemma_maps_to_push(ms, m, r, n as int, false);
                    }
                    if let Some(r) = c1.local_rid {
                        lemma_maps_to_push(ms, m, r, n as int, true);
                    }
                } else {
                    // an old context
                    if q == n {
                        let j = choose|j: int| 0 <= j < cs.len() && cs[j] == x;
                        assert(a[n as int].contexts@[j] == x);
                    } else {
                        assert(a[q].contexts@[k] == x);
                    }
                    assert(ctx_ok(x, fs));
                    assert(ids_mapped(x, q, fs));
                    if x.face == f {
                        if let Some(r) = x.remote_rid {
                            lemma_maps_to_push(ms, m, r, q, false);
                        }
                        if let Some(r) = x.local_rid {
                            lemma_maps_to_push(ms, m, r, q, true);
                        }
                    } else {
                        assert(fs2[x.face as int] == fs[x.face as int]);
                    }
                }
            }
            assert forall|r: ResourceId| r != rid implies #[trigger] self.bound(f, r) == old(self).bound(f, r) by {
                assert(mapping_pos(ms2, r) == mapping_pos(ms, r));
                if let Some(i) = mapping_pos(ms, r) {
                    lemma_mapping_pos(ms, r);
                    assert(ms2[i] == ms[i]);
                }
            }
            if held_ok(a) {
                assert forall|q: int| 0 < q < b.len() && #[trigger] b[q].alive implies b[q].contexts@.len()
                    > 0 || b[q].children@.len() > 0 by {
                    if q == n {
                        assert(!c1.spec_is_empty());
                    }
                }
            }
        }
    }

    /// What the face `f` has declared on the resource `n` once its id `rid`,
    /// which stood for `n`, has gone: where the context held that id, it
    /// holds in its place the first other id of the same kind that the face
    /// has for `n`, one that can be used in a key if there is one, or none.
    pub open(crate) spec fn ctx_without(&self, f: usize, rid: ResourceId, n: usize) -> Context {
        let ms = self.faces@[f as int].mappings@;
        let at = mapping_pos(ms, rid)->0;
        without_rid(
            self.context(n, f),
            rid,
            ms[at].local,
            other_of(ms.remove(at), n, ms[at].local),
        )
    }

    /// Makes the id `rid` stand for nothing on the face `f`. Where the
    /// context of the face at the resource that the id stood for holds the
    /// id, it takes another id of the face for that resource, of the same
    /// kind, or none. The result is the resource that the id stood for.
    pub(crate) fn unbind(&mut self, f: usize, rid: ResourceId) -> (r: Option<usize>)
        requires
            core_ok(old(self).resources@, old(self).faces@),
            old(self).has_face(f),
        ensures
            core_ok(final(self).resources@, final(self).faces@),
            final(self).routes@ == old(self).routes@,
            r == rid_target(old(self).faces@[f as int], rid),
            r is None ==> *final(self) == *old(self),
            same_but_ids(old(self).faces@, final(self).faces@, f as int),
            rid_target(final(self).faces@[f as int], rid) is None,
            final(self).faces@[f as int].next_local_id == old(self).faces@[f as int].next_local_id,
            forall|x: ResourceId|
                x != rid ==> #[trigger] rid_target(final(self).faces@[f as int], x) == rid_target(
                    old(self).faces@[f as int],
                    x,
                ),
            final(self).faces@[f as int].mappings@.len() <= old(self).faces@[f as int].mappings@.len(),
            r is Some ==> final(self).faces@[f as int].mappings@.len() < old(self).faces@[f as int].mappings@.len(),
            match r {
                Some(n) => old(self).is_live(n) && exists|local: bool, other: Option<ResourceId>|
                    #[trigger] ctx_put(
                        old(self).resources@,
                        final(self).resources@,
                        n as int,
                        without_rid(old(self).context(n, f), rid, local, other),
                    ),
                None => true,
            },
            r matches Some(n) ==> ctx_put(
                old(self).resources@,
                final(self).resources@,
                n as int,
                old(self).ctx_without(f, rid, n),
            ),
            r matches Some(n) ==> (held_ok(old(self).resources@) ==> held_but(
                final(self).resources@,
                n as int,
            )),
    {
        let ghost a = self.resources@;
        let ghost fs = self.faces@;
        let ghost ms = fs[f as int].mappings@;
        let pos = find_mapping_pos(&self.faces[f].mappings, rid);
        let i = match pos {
            Some(i) => i,
            None => {
                return None;
            },
        };
        let m = self.faces[f].mappings[i];
        let n = m.res;
        proof {
            assert(mapping_ok(fs[f as int].mappings@[i as int], f as int, a));
            lemma_mapping_remove(ms, i as int);
            self.lemma_context_fits(n, f);
        }
        let c0 = self.get_context(n, f);
        let _ = self.faces[f].mappings.remove(i);
        let other = other_rid(&self.faces[f].mappings, n, m.local);
        let c1 = if m.local {
            if c0.local_rid == Some(rid) {
                Context { local_rid: other, ..c0 }
            } else {
                c0
            }
        } else {
            if c0.remote_rid == Some(rid) {
                Context { remote_rid: other, ..c0 }
            } else {
                c0
            }
        };
        let nfaces = self.faces.len();
        proof {
            let fs2 = self.faces@;
            let ms2 = fs2[f as int].mappings@;
            assert(ms2 == ms.remove(i as int));
            lemma_contexts_same_but_ids(a, fs, fs2, f as int);
            if let Some(x) = other {
                let j = choose|j: int|
                    0 <= j < ms2.len() && (#[trigger] ms2[j]).res == n && ms2[j].local == m.local
                        && ms2[j].rid == x;
                assert(ms.contains(ms2[j]));
                let j0 = choose|j0: int| 0 <= j0 < ms.len() && ms[j0] == ms2[j];
                assert(mapping_ok(fs[f as int].mappings@[j0], f as int, a));
            }
        }
        self.put_context(n, c1);
        proof {
            let b = self.resources@;
            let fs2 = self.faces@;
            let ms2 = fs2[f as int].mappings@;
            let cs = a[n as int].contexts@;
            let ds = b[n as int].contexts@;
            assert(c1 == without_rid(c0, rid, m.local, other));
            assert(ctx_put(a, b, n as int, without_rid(old(self).context(n, f), rid, m.local, other)));
            assert forall|g: int, k: int|
                0 <= g < fs2.len() && 0 <= k < fs2[g].mappings@.len() implies mapping_ok(
                #[trigger] fs2[g].mappings@[k],
                g,
                b,
            ) by {
                let x = fs2[g].mappings@[k];
                if g == f {
                    assert(ms.contains(ms2[k]));
                    let k0 = choose|k0: int| 0 <= k0 < ms.len() && ms[k0] == x;
                    assert(mapping_ok(fs[f as int].mappings@[k0], f as int, a));
                    if x.res == n {
                        // the context of the face at `n` keeps an id of the kind of `x`
                        assert(ids_fit(fs[f as int], n as int, c0));
                        if x.local == m.local {
                            assert(other is Some);
                        }
                        assert(!c1.spec_is_empty());
                        assert(ctx_of(ds, f) == c1);
                    } else {
                        assert(b[x.res as int].contexts@ == a[x.res as int].contexts@);
                    }
                } else {
                    assert(x == fs[g].mappings@[k]);
                    assert(mapping_ok(fs[g].mappings@[k], g, a));
                    if x.res == n {
                        assert(ctx_of(ds, g as usize) == ctx_of(cs, g as usize));
                    } else {
                        assert(b[x.res as int].contexts@ == a[x.res as int].contexts@);
                    }
                }
            }
            assert(distinct_rids(ms));
            assert forall|g: int| 0 <= g < fs.len() && g != f implies fs2[g] == fs[g] by {}
            assert forall|q: int, k: int| 0 <= q < b.len() && 0 <= k < b[q].contexts@.len() implies ids_mapped(
                #[trigger] b[q].contexts@[k],
                q,
                fs2,
            ) by {
                let x = b[q].contexts@[k];
                if q == n && x == c1 {
                    assert(ids_fit(fs[f as int], n as int, c0));
                    assert(c1.face == f);
                    if let Some(r) = c1.remote_rid {
                        if !m.local && c0.remote_rid == Some(rid) {
                            // the id found in place of `rid`
                            let j = choose|j: int|
                                0 <= j < ms2.len() && (#[trigger] ms2[j]).res == n && ms2[j].local
                                    == m.local && ms2[j].rid == r;
                            lemma_maps_to_at(ms2, j);
                        } else {
                            assert(maps_to(fs[f as int], r, n as int, false));
                            if r == rid {
                                // the id `rid` was one that the broker gave: it is no remote id
                                lemma_mapping_pos(ms, rid);
                            }
                            lemma_maps_to_remove(ms, i as int, r, n as int, false);
                        }
                    }
                    if let Some(r) = c1.local_rid {
                        if m.local && c0.local_rid == Some(rid) {
                            let j = choose|j: int|
                                0 <= j < ms2.len() && (#[trigger] ms2[j]).res == n && ms2[j].local
                                    == m.local && ms2[j].rid == r;
                            lemma_maps_to_at(ms2, j);
                        } else {
                            assert(maps_to(fs[f as int], r, n as int, true));
                            if r == rid {
                                lemma_mapping_pos(ms, rid);
                            }
                            lemma_maps_to_remove(ms, i as int, r, n as int, true);
                        }
                    }
                } else {
                    if q == n {
                        let j = choose|j: int| 0 <= j < cs.len() && cs[j] == x;
                        assert(a[n as int].contexts@[j] == x);
                    } else {
                        assert(a[q].contexts@[k] == x);
                    }
                    assert(ctx_ok(x, fs));
                    assert(ids_mapped(x, q, fs));
                    if x.face == f {
                        // a context of the face that holds `rid` is its context at `n`
                        if x.remote_rid == Some(rid) || x.local_rid == Some(rid) {
                            lemma_mapping_pos(ms, rid);
                            assert(q == n);
                            let j = choose|j: int| 0 <= j < cs.len() && cs[j] == x;
                            crate::routing::resource::lemma_ctx_pos_at(cs, j);
                            assert(x == c0);
                            crate::routing::resource::lemma_ctx_pos_at(ds, k);
                            assert(ctx_of(ds, f) == x);
                        }
                        if let Some(r) = x.remote_rid {
                            lemma_maps_to_remove(ms, i as int, r, q, false);
                        }
                        if let Some(r) = x.local_rid {
                            lemma_maps_to_remove(ms, i as int, r, q, true);
                        }
                    } else {
                        assert(fs2[x.face as int] == fs[x.face as int]);
                    }
                }
            }
        }
        Some(n)
    }

    /// Marks the face `f`, which has no ids and no contexts, as detached.
    pub(crate) fn mark_detached(&mut self, f: usize)
        requires
            core_ok(old(self).resources@, old(self).faces@),
            old(self).has_face(f),
            old(self).faces@[f as int].mappings@.len() == 0,
            forall|n: int|
                0 <= n < old(self).resources@.len() ==> ctx_pos(
                    #[trigger] old(self).resources@[n].contexts@,
                    f,
                ) is None,
        ensures
            core_ok(final(self).resources@, final(self).faces@),
            final(self).resources@ == old(self).resources@,
            final(self).routes@ == old(self).routes@,
            same_but_ids(old(self).faces@.update(f as int, final(self).faces@[f as int]), final(self).faces@, f as int),
            final(self).faces@.len() == old(self).faces@.len(),
            !final(self).has_face(f),
            forall|g: int|
                0 <= g < old(self).faces@.len() && g != f ==> #[trigger] final(self).faces@[g]
                    == old(self).faces@[g],
    {
        self.faces[f].attached = false;
        proof {
            let rs = self.resources@;
            let a = old(self).faces@;
            let b = self.faces@;
            assert forall|n: int, i: int| 0 <= n < rs.len() && 0 <= i < rs[n].contexts@.len() implies {
                let c = #[trigger] rs[n].contexts@[i];
                ctx_ok(c, b)
            } by {
                let c = rs[n].contexts@[i];
                assert(ctx_ok(c, a));
                lemma_ctx_pos(rs[n].contexts@, f);
            }
            assert forall|g: int, i: int| 0 <= g < b.len() && 0 <= i < b[g].mappings@.len() implies mapping_ok(
                #[trigger] b[g].mappings@[i],
                g,
                rs,
            ) by {
                assert(mapping_ok(a[g].mappings@[i], g, rs));
            }
            assert forall|n: int, k: int| 0 <= n < rs.len() && 0 <= k < rs[n].contexts@.len() implies ids_mapped(
                #[trigger] rs[n].contexts@[k],
                n,
                b,
            ) by {
                let c = rs[n].contexts@[k];
                assert(ctx_ok(c, a));
                assert(ids_mapped(c, n, a));
                lemma_ctx_pos(rs[n].contexts@, f);
            }
        }
    }
}

} // verus!
