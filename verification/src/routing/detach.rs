//! Detaching a face: its ids and its contexts go, and with them the
//! resources that nothing else holds.

use vstd::prelude::*;
use crate::routing::clean::stays;
use crate::routing::contexts::ctx_put;
use crate::routing::faces::{same_but_ids, without_rid};
use crate::routing::outbound::RoutingError;
use crate::routing::resource::{
    ctx_of, ctx_pos, lemma_ctx_of, lemma_ctx_pos, live, Context, Resource,
};
use crate::routing::tables::{ctx_ok, Tables};
use crate::types::ResourceId;

verus! {

/// The node `b` is the node `a` some time later, while the face `f`
/// detaches: it has the name of `a`, its parent and its chunk and, for every
/// other face, the context of `a`; it is not live unless `a` is, and if it is dead and `a` is not,
/// no other face had declared anything on `a`.
pub open(crate) spec fn lasts(a: Resource, b: Resource, f: usize) -> bool {
    &&& b.alive ==> a.alive
    &&& b.name@ == a.name@
    &&& b.parent == a.parent
    &&& b.suffix@ == a.suffix@
    &&& forall|g: usize| g != f ==> #[trigger] ctx_of(b.contexts@, g) == ctx_of(a.contexts@, g)
    &&& a.alive && !b.alive ==> forall|g: usize|
        g != f ==> (#[trigger] ctx_of(a.contexts@, g)).spec_is_empty()
}

impl Tables {
    /// The tables `self` are the tables `pre` some time later, while the
    /// face `f` detaches: nothing changed for the other faces.
    pub open(crate) spec fn detaching(&self, pre: Tables, f: usize) -> bool {
        &&& self.consistent()
        &&& self.all_held()
        &&& self.spec_len() == pre.spec_len()
        &&& same_but_ids(pre.face_seq(), self.face_seq(), f as int)
        &&& forall|m: int|
            0 <= m < pre.spec_len() ==> lasts(pre.nodes()[m], #[trigger] self.nodes()[m], f)
    }

    /// Detaching goes on step by step.
    pub(crate) proof fn lemma_detaching_trans(a: Tables, b: Tables, c: Tables, f: usize)
        requires
            b.detaching(a, f),
            c.detaching(b, f),
        ensures
            c.detaching(a, f),
    {
        assert forall|m: int| 0 <= m < a.spec_len() implies lasts(
            a.nodes()[m],
            #[trigger] c.nodes()[m],
            f,
        ) by {
            assert(lasts(a.nodes()[m], b.nodes()[m], f));
            assert(lasts(b.nodes()[m], c.nodes()[m], f));
            let x = a.nodes()[m];
            let y = b.nodes()[m];
            let z = c.nodes()[m];
            assert forall|g: usize| g != f implies #[trigger] ctx_of(z.contexts@, g) == ctx_of(
                x.contexts@,
                g,
            ) by {
                assert(ctx_of(z.contexts@, g) == ctx_of(y.contexts@, g));
                assert(ctx_of(y.contexts@, g) == ctx_of(x.contexts@, g));
            }
            if x.alive && !z.alive {
                assert forall|g: usize| g != f implies (#[trigger] ctx_of(
                    x.contexts@,
                    g,
                )).spec_is_empty() by {
                    assert(ctx_of(y.contexts@, g) == ctx_of(x.contexts@, g));
                    if y.alive {
                        assert(ctx_of(y.contexts@, g).spec_is_empty());
                    }
                }
            }
        }
    }

    /// Prunes at `n` after a context of the face `f` was put there.
    fn clean_after_put(&mut self, n: usize, f: usize, Ghost(pre): Ghost<Tables>, Ghost(c): Ghost<
        Context,
    >)
        requires
            old(self).consistent(),
            pre.consistent(),
            pre.all_held(),
            pre.is_live(n),
            c.face == f,
            ctx_put(pre.nodes(), old(self).nodes(), n as int, c),
            same_but_ids(pre.face_seq(), old(self).face_seq(), f as int),
            old(self).all_held_but(n),
        ensures
            final(self).detaching(pre, f),
            final(self).routes@.len() == old(self).routes@.len(),
            forall|m: int|
                0 <= m < pre.spec_len() ==> stays(old(self).nodes()[m], #[trigger] final(self).nodes()[m]),
            final(self).face_seq() == old(self).face_seq(),
    {
        let ghost mid = *self;
        let nres = self.resources.len();
        self.clean(n);
        proof {
            let a = pre.nodes();
            let b = mid.nodes();
            let z = self.nodes();
            assert(a.len() == nres);
            assert forall|m: int| 0 <= m < pre.spec_len() implies lasts(
                a[m],
                #[trigger] z[m],
                f,
            ) by {
                assert(stays(b[m], z[m]));
                assert(b[m].alive == a[m].alive);
                assert forall|g: usize| g != f implies #[trigger] ctx_of(z[m].contexts@, g)
                    == ctx_of(a[m].contexts@, g) by {
                    if m == n {
                        assert(ctx_of(b[n as int].contexts@, g) == ctx_of(a[n as int].contexts@, g));
                    } else {
                        assert(b[m].contexts@ == a[m].contexts@);
                    }
                }
                if a[m].alive && !z[m].alive {
                    assert(mid.is_live(m as usize));
                    assert(!self.is_live(m as usize));
                    assert(b[m].contexts@.len() == 0);
                    assert forall|g: usize| g != f implies (#[trigger] ctx_of(
                        a[m].contexts@,
                        g,
                    )).spec_is_empty() by {
                        assert(ctx_of(z[m].contexts@, g) == ctx_of(a[m].contexts@, g));
                    }
                }
            }
        }
    }

    /// Detaches the face `face`: its ids stand for nothing any more, what it
    /// has declared is forgotten, and the resources that nothing else holds
    /// are pruned. What the other faces have declared stays.
    pub fn undeclare_session(&mut self, face: usize) -> (r: Result<(), RoutingError>)
        requires
            old(self).wf(),
        ensures
            final(self).wf(),
            match r {
                Err(e) => e == RoutingError::ClosedSession && !old(self).has_face(face)
                    && *final(self) == *old(self),
                Ok(()) => {
                    &&& old(self).has_face(face)
                    &&& !final(self).has_face(face)
                    &&& final(self).detached(*old(self), face)
                },
            },
    {
        if !(face < self.faces.len() && self.faces[face].attached) {
            return Err(RoutingError::ClosedSession);
        }
        let nres = self.resources.len();
        // The ids of the face.
        while self.faces[face].mappings.len() > 0
            invariant
                self.detaching(*old(self), face),
                self.has_face(face),
                self.resources@.len() == nres,
                old(self).wf(),
            decreases self.faces@[face as int].mappings@.len(),
        {
            let last = self.faces[face].mappings.len() - 1;
            let rid = self.faces[face].mappings[last].rid;
            let ghost before = *self;
            proof {
                crate::routing::face::lemma_mapping_pos_at(
                    self.faces@[face as int].mappings@,
                    last as int,
                );
            }
            match self.unbind(face, rid) {
                Some(n) => {
                    proof {
                        let c0 = before.context(n, face);
                        lemma_ctx_of(before.nodes()[n as int].contexts@, face);
                    }
                    let ghost (local, other) = choose|local: bool, other: Option<ResourceId>|
                        #[trigger] ctx_put(
                            before.resources@,
                            self.resources@,
                            n as int,
                            without_rid(before.context(n, face), rid, local, other),
                        );
                    self.clean_after_put(
                        n,
                        face,
                        Ghost(before),
                        Ghost(without_rid(before.context(n, face), rid, local, other)),
                    );
                    proof {
                        Self::lemma_detaching_trans(*old(self), before, *self, face);
                    }
                },
                None => {},
            }
        }
        // What the face has declared.
        let mut n: usize = 0;
        while n < nres
            invariant
                n <= nres,
                self.detaching(*old(self), face),
                self.has_face(face),
                self.resources@.len() == nres,
                old(self).wf(),
                self.faces@[face as int].mappings@.len() == 0,
                forall|m: int|
                    0 <= m < n ==> ctx_pos(#[trigger] self.resources@[m].contexts@, face) is None,
            decreases nres - n,
        {
            let ghost before = *self;
            if self.resources[n].alive {
                let c = Context::new(face);
                proof {
                    let cs = self.resources@[n as int].contexts@;
                    lemma_ctx_pos(cs, face);
                }
                self.set_context(n, c);
                let ghost put = *self;
                self.clean_after_put(n, face, Ghost(before), Ghost(c));
                proof {
                    Self::lemma_detaching_trans(*old(self), before, *self, face);
                    assert forall|m: int| 0 <= m < n + 1 implies ctx_pos(
                        #[trigger] self.resources@[m].contexts@,
                        face,
                    ) is None by {
                        assert(stays(put.nodes()[m], self.nodes()[m]));
                        if m == n {
                            let ds = put.resources@[n as int].contexts@;
                            lemma_ctx_pos(ds, face);
                            if let Some(i) = ctx_pos(ds, face) {
                                assert(ctx_ok(put.resources@[n as int].contexts@[i], put.faces@));
                                crate::routing::resource::lemma_ctx_pos_at(ds, i);
                            }
                        } else {
                            assert(put.resources@[m].contexts@ == before.resources@[m].contexts@);
                        }
                    }
                }
            } else {
                proof {
                    assert(crate::routing::resource::dead_ok(self.resources@[n as int]));
                }
            }
            n = n + 1;
        }
        let ghost before = *self;
        self.mark_detached(face);
        self.rebuild_routes();
        proof {
            assert forall|m: int| 0 <= m < old(self).spec_len() implies lasts(
                old(self).nodes()[m],
                #[trigger] self.nodes()[m],
                face,
            ) by {
                assert(lasts(old(self).nodes()[m], before.nodes()[m], face));
            }
        }
        Ok(())
    }

    /// The tables `self` are the tables `pre` after the face `f` has
    /// detached: the other faces are what they were, with their ids; every
    /// resource that is still there has its name and what the other faces
    /// have declared on it, and nothing of the face `f`; a resource has left
    /// only if no other face had declared anything on it.
    pub open(crate) spec fn detached(&self, pre: Tables, f: usize) -> bool {
        &&& self.spec_len() == pre.spec_len()
        &&& self.face_seq().len() == pre.face_seq().len()
        &&& forall|g: int|
            0 <= g < pre.face_seq().len() && g != f ==> #[trigger] self.face_seq()[g]
                == pre.face_seq()[g]
        &&& forall|m: int|
            0 <= m < pre.spec_len() ==> lasts(pre.nodes()[m], #[trigger] self.nodes()[m], f)
        &&& forall|m: int|
            0 <= m < pre.spec_len() ==> ctx_pos(#[trigger] self.nodes()[m].contexts@, f) is None
    }
}

} // verus!
