//! Changing what a face has declared on a resource.

use vstd::prelude::*;
use crate::routing::face::Face;
use crate::routing::names::key_intersect;
use crate::proto::decl::SubInfo;
use crate::routing::resource::{
    lemma_ctx_pos, children_ok, ctx_of, ctx_pos, dead_ok, distinct_faces, empty_ctx, find_context,
    get_context, lemma_ctx_push, lemma_ctx_remove, lemma_ctx_update, live, matches_ok, node_ok,
    structure_ok, Context, Resource,
};
use crate::routing::tables::{
    contexts_ok, core_ok, ctx_ok, held_but, ids_mapped, mapping_ok, mappings_ok, maps_to, Tables,
};
use crate::types::NO_RESOURCE_ID;

verus! {

/// The nodes of `b` are those of `a` but for the contexts of the node `n`.
pub open(crate) spec fn same_but_contexts(a: Seq<Resource>, b: Seq<Resource>, n: int) -> bool {
    &&& a.len() == b.len()
    &&& forall|m: int|
        0 <= m < a.len() ==> {
            &&& (#[trigger] b[m]).alive == a[m].alive
            &&& b[m].name@ == a[m].name@
            &&& b[m].suffix@ == a[m].suffix@
            &&& b[m].parent == a[m].parent
            &&& b[m].children@ == a[m].children@
            &&& b[m].matches@ == a[m].matches@
            &&& m != n ==> b[m].contexts@ == a[m].contexts@
        }
}

/// What holds of the trie and of the matches does not depend on the contexts of a live node.
pub proof fn lemma_same_but_contexts(a: Seq<Resource>, b: Seq<Resource>, n: int)
    requires
        structure_ok(a),
        matches_ok(a),
        same_but_contexts(a, b, n),
        live(a, n),
    ensures
        structure_ok(b),
        matches_ok(b),
        held_but(a, n) ==> held_but(b, n),
{
    assert forall|m: int| 0 < m < b.len() && #[trigger] b[m].alive implies node_ok(b, m) by {
        assert(a[m].alive);
        assert(node_ok(a, m));
    }
    assert forall|m: int| 0 <= m < b.len() implies #[trigger] children_ok(b, m) by {
        assert(children_ok(a, m));
        assert(b[m].children@ == a[m].children@);
        assert forall|i: int, j: int|
            0 <= i < b[m].children@.len() && 0 <= j < b[m].children@.len() && i != j implies b[(
            #[trigger] b[m].children@[i]) as int].suffix@ != b[(
            #[trigger] b[m].children@[j]) as int].suffix@ by {
            let x = a[m].children@[i];
            let y = a[m].children@[j];
            assert(a[x as int].suffix@ != a[y as int].suffix@);
        }
    }
    assert forall|m: int| 0 <= m < b.len() && !(#[trigger] b[m].alive) implies dead_ok(b[m]) by {
        assert(!a[m].alive);
        assert(dead_ok(a[m]));
    }
    assert forall|m: int, i: int| 0 <= m < b.len() && 0 <= i < b[m].matches@.len() implies {
        let x = #[trigger] b[m].matches@[i];
        live(b, x as int) && key_intersect(b[m].name@, b[x as int].name@)
    } by {
        let x = a[m].matches@[i];
        assert(live(a, x as int) && key_intersect(a[m].name@, a[x as int].name@));
    }
    assert forall|m: int, x: int|
        live(b, m) && live(b, x) && #[trigger] key_intersect(
            b[m].name@,
            b[x].name@,
        ) implies b[m].matches@.contains(x as usize) by {
        assert(key_intersect(a[m].name@, a[x].name@));
    }
    if held_but(a, n) {
        assert forall|m: int| 0 < m < b.len() && m != n && #[trigger] b[m].alive implies b[m].contexts@.len()
            > 0 || b[m].children@.len() > 0 by {
            assert(a[m].alive);
        }
    }
}

/// The nodes of `b` are those of `a`, but the context of the face of `c` at
/// the node `n` is `c`; a context that says nothing is not kept.
pub open(crate) spec fn ctx_put(a: Seq<Resource>, b: Seq<Resource>, n: int, c: Context) -> bool {
    let cs = a[n].contexts@;
    let ds = b[n].contexts@;
    &&& same_but_contexts(a, b, n)
    &&& distinct_faces(ds)
    &&& ctx_of(ds, c.face) == c || (c.spec_is_empty() && ctx_of(ds, c.face) == empty_ctx(c.face))
    &&& forall|g: usize| g != c.face ==> #[trigger] ctx_of(ds, g) == ctx_of(cs, g)
    &&& forall|k: int| 0 <= k < ds.len() ==> (#[trigger] ds[k]) == c || cs.contains(ds[k])
    &&& !c.spec_is_empty() ==> ds.len() > 0
}

/// The context `c` fits the ids of the face `face`, which is its own: its ids
/// are ids of the face for the node `n`, and it has an id of each kind of
/// which the face has one for `n`.
pub open(crate) spec fn ids_fit(face: Face, n: int, c: Context) -> bool {
    &&& c.remote_rid matches Some(r) ==> maps_to(face, r, n, false)
    &&& c.local_rid matches Some(r) ==> maps_to(face, r, n, true)
    &&& forall|i: int|
        0 <= i < face.mappings@.len() && (#[trigger] face.mappings@[i]).res == n ==> if face.mappings@[i].local {
            c.local_rid is Some
        } else {
            c.remote_rid is Some
        }
}

/// The ids and the contexts still agree where a context that fits the ids of
/// its face was put.
pub(crate) proof fn lemma_put_mappings(
    a: Seq<Resource>,
    b: Seq<Resource>,
    fs: Seq<Face>,
    n: int,
    c: Context,
)
    requires
        fs.len() <= usize::MAX,
        mappings_ok(a, fs),
        live(a, n),
        c.face < fs.len(),
        ctx_put(a, b, n, c),
        ids_fit(fs[c.face as int], n, c),
    ensures
        mappings_ok(b, fs),
{
    let cs = a[n].contexts@;
    let ds = b[n].contexts@;
    assert forall|f: int, i: int| 0 <= f < fs.len() && 0 <= i < fs[f].mappings@.len() implies mapping_ok(
        #[trigger] fs[f].mappings@[i],
        f,
        b,
    ) by {
        let m = fs[f].mappings@[i];
        assert(mapping_ok(m, f, a));
        if m.res == n {
            if f == c.face {
                assert(!c.spec_is_empty());
                assert(ctx_of(ds, c.face) == c);
            } else {
                assert(ctx_of(ds, f as usize) == ctx_of(cs, f as usize));
            }
        } else {
            assert(b[m.res as int].contexts@ == a[m.res as int].contexts@);
        }
    }
    assert forall|m: int, i: int| 0 <= m < b.len() && 0 <= i < b[m].contexts@.len() implies ids_mapped(
        #[trigger] b[m].contexts@[i],
        m,
        fs,
    ) by {
        if m == n {
            let x = ds[i];
            if x != c {
                let j = choose|j: int| 0 <= j < cs.len() && cs[j] == x;
                assert(a[n].contexts@[j] == x);
            }
        } else {
            assert(a[m].contexts@[i] == b[m].contexts@[i]);
        }
    }
}

impl Tables {
    /// The context `c` fits the ids of its face.
    pub open(crate) spec fn ids_agree(&self, n: usize, c: Context) -> bool {
        ids_fit(self.faces@[c.face as int], n as int, c)
    }

    /// What the face `f` has declared on the resource `n`.
    pub(crate) fn get_context(&self, n: usize, f: usize) -> (c: Context)
        requires
            contexts_ok(self.resources@, self.faces@),
            n < self.resources@.len(),
        ensures
            c == self.context(n, f),
    {
        get_context(&self.resources[n].contexts, f)
    }

    /// Makes `c` what its face has declared on the resource `n`, whatever
    /// the ids of the face. A context that says nothing is not kept.
    pub(crate) fn put_context(&mut self, n: usize, c: Context)
        requires
            structure_ok(old(self).resources@),
            matches_ok(old(self).resources@),
            contexts_ok(old(self).resources@, old(self).faces@),
            old(self).is_live(n),
            old(self).has_face(c.face),
            c.local_rid != Some(NO_RESOURCE_ID),
        ensures
            structure_ok(final(self).resources@),
            matches_ok(final(self).resources@),
            contexts_ok(final(self).resources@, final(self).faces@),
            final(self).faces@ == old(self).faces@,
            final(self).routes@ == old(self).routes@,
            ctx_put(old(self).resources@, final(self).resources@, n as int, c),
            held_but(old(self).resources@, n as int) ==> held_but(final(self).resources@, n as int),
    {
        let ghost a = old(self).resources@;
        let ghost cs = a[n as int].contexts@;
        let ghost fs = self.faces@;
        let pos = find_context(&self.resources[n].contexts, c.face);
        match pos {
            Some(i) => {
                if c.is_empty() {
                    let _ = self.resources[n].contexts.remove(i);
                    proof {
                        lemma_ctx_remove(cs, i as int);
                    }
                } else {
                    self.resources[n].contexts[i] = c;
                    proof {
                        lemma_ctx_update(cs, i as int, c);
                    }
                }
            },
            None => {
                if !c.is_empty() {
                    self.resources[n].contexts.push(c);
                    proof {
                        lemma_ctx_push(cs, c);
                    }
                }
            },
        }
        proof {
            let b = self.resources@;
            let ds = b[n as int].contexts@;
            assert(ctx_of(ds, c.face) == c || (c.spec_is_empty() && ctx_of(ds, c.face) == empty_ctx(
                c.face,
            )));
            assert(forall|g: usize| g != c.face ==> ctx_of(ds, g) == ctx_of(cs, g));
            assert(same_but_contexts(a, b, n as int));
            lemma_same_but_contexts(a, b, n as int);
            assert(distinct_faces(ds));
            assert forall|k: int| 0 <= k < ds.len() implies (#[trigger] ds[k]) == c || cs.contains(
                ds[k],
            ) by {
                match pos {
                    Some(i) => {
                        if c.spec_is_empty() {
                        } else {
                            if k != i {
                                assert(ds[k] == cs[k]);
                            }
                        }
                    },
                    None => {
                        if k < cs.len() {
                            assert(ds[k] == cs[k]);
                        }
                    },
                }
            }
            assert forall|m: int, i: int| 0 <= m < b.len() && 0 <= i < b[m].contexts@.len() implies {
                let x = #[trigger] b[m].contexts@[i];
                ctx_ok(x, fs)
            } by {
                if m == n {
                    let x = ds[i];
                    if x != c {
                        let j = choose|j: int| 0 <= j < cs.len() && cs[j] == x;
                        assert(a[n as int].contexts@[j] == x);
                    }
                } else {
                    assert(a[m].contexts@[i] == b[m].contexts@[i]);
                }
            }
            assert forall|m: int| 0 <= m < b.len() implies distinct_faces(
                #[trigger] b[m].contexts@,
            ) by {
                if m != n {
                    assert(distinct_faces(a[m].contexts@));
                }
            }
        }
    }

    /// Makes `c` what its face has declared on the resource `n`. A context
    /// that says nothing is not kept.
    pub(crate) fn set_context(&mut self, n: usize, c: Context)
        requires
            core_ok(old(self).resources@, old(self).faces@),
            old(self).is_live(n),
            old(self).has_face(c.face),
            old(self).ids_agree(n, c),
            c.local_rid != Some(NO_RESOURCE_ID),
        ensures
            core_ok(final(self).resources@, final(self).faces@),
            final(self).faces@ == old(self).faces@,
            final(self).routes@ == old(self).routes@,
            ctx_put(old(self).resources@, final(self).resources@, n as int, c),
            held_but(old(self).resources@, n as int) ==> held_but(final(self).resources@, n as int),
    {
        let nfaces = self.faces.len();
        self.put_context(n, c);
        proof {
            lemma_put_mappings(
                old(self).resources@,
                self.resources@,
                self.faces@,
                n as int,
                c,
            );
        }
    }

    /// Makes `subs` the subscription of the face `f` to the resource `n`.
    pub(crate) fn set_subs(&mut self, n: usize, f: usize, subs: Option<SubInfo>)
        requires
            core_ok(old(self).resources@, old(self).faces@),
            old(self).is_live(n),
            old(self).has_face(f),
        ensures
            core_ok(final(self).resources@, final(self).faces@),
            final(self).faces@ == old(self).faces@,
            final(self).routes@ == old(self).routes@,
            ctx_put(
                old(self).resources@,
                final(self).resources@,
                n as int,
                (Context { subs, ..old(self).context(n, f) }),
            ),
            final(self).context(n, f).subs == subs,
            held_but(old(self).resources@, n as int) ==> held_but(final(self).resources@, n as int),
    {
        let c0 = self.get_context(n, f);
        let c = Context { subs, ..c0 };
        proof {
            self.lemma_context_fits(n, f);
        }
        self.set_context(n, c);
    }

    /// Makes `qabl` say whether the face `f` answers queries on the resource `n`.
    pub(crate) fn set_qabl(&mut self, n: usize, f: usize, qabl: bool)
        requires
            core_ok(old(self).resources@, old(self).faces@),
            old(self).is_live(n),
            old(self).has_face(f),
        ensures
            core_ok(final(self).resources@, final(self).faces@),
            final(self).faces@ == old(self).faces@,
            final(self).routes@ == old(self).routes@,
            ctx_put(
                old(self).resources@,
                final(self).resources@,
                n as int,
                (Context { qabl, ..old(self).context(n, f) }),
            ),
            final(self).context(n, f).qabl == qabl,
            held_but(old(self).resources@, n as int) ==> held_but(final(self).resources@, n as int),
    {
        let c0 = self.get_context(n, f);
        let c = Context { qabl, ..c0 };
        proof {
            self.lemma_context_fits(n, f);
        }
        self.set_context(n, c);
    }

    /// The context of a face at a resource fits the ids of the face, and so
    /// does every context with the same ids.
    pub(crate) proof fn lemma_context_fits(&self, n: usize, f: usize)
        requires
            core_ok(self.resources@, self.faces@),
            self.is_live(n),
            self.has_face(f),
        ensures
            ids_fit(self.faces@[f as int], n as int, self.context(n, f)),
            self.context(n, f).face == f,
            self.context(n, f).local_rid != Some(NO_RESOURCE_ID),
    {
        let rs = self.resources@;
        let fs = self.faces@;
        let cs = rs[n as int].contexts@;
        assert(distinct_faces(cs));
        lemma_ctx_pos(cs, f);
        match ctx_pos(cs, f) {
            Some(i) => {
                assert(ctx_ok(rs[n as int].contexts@[i], fs));
                assert(ids_mapped(rs[n as int].contexts@[i], n as int, fs));
            },
            None => {},
        }
        assert forall|i: int|
            0 <= i < fs[f as int].mappings@.len() && (#[trigger] fs[f as int].mappings@[i]).res
                == n implies if fs[f as int].mappings@[i].local {
            self.context(n, f).local_rid is Some
        } else {
            self.context(n, f).remote_rid is Some
        } by {
            assert(mapping_ok(fs[f as int].mappings@[i], f as int, rs));
        }
    }
}

} // verus!
