//! Declaring and undeclaring what a face has on a resource: a subscription,
//! or that it answers queries.

use vstd::prelude::*;
use crate::routing::adverts::{
    after_id, calls_to, free_part, lemma_free_part_frame, lemma_free_part_in,
};
use crate::proto::decl::SubInfo;
use crate::routing::clean::stays;
use crate::routing::outbound::{Outbound, RoutingError};
use crate::routing::pubsub::{told_once, told_to, AdvertKind};
use crate::routing::resource::{ctx_of, lemma_ctx_of, Context, Resource};
use crate::routing::tables::{held_but, Tables};
use crate::types::{ResourceId, NO_RESOURCE_ID};

verus! {

/// What a face declares on a resource, or takes back.
#[derive(Clone, Copy, Debug, PartialEq, Eq)]
pub enum Interest {
    /// A subscription, with what the subscriber asks for.
    Subscription(SubInfo),
    /// That the face answers queries.
    Queryable,
}

impl Interest {
    /// The call that tells of this.
    pub open spec fn spec_declares(self) -> AdvertKind {
        match self {
            Interest::Subscription(info) => AdvertKind::Subscriber(info),
            Interest::Queryable => AdvertKind::Queryable,
        }
    }

    /// The call that tells of the end of this.
    pub open spec fn spec_forgets(self) -> AdvertKind {
        match self {
            Interest::Subscription(_) => AdvertKind::ForgetSubscriber,
            Interest::Queryable => AdvertKind::ForgetQueryable,
        }
    }

    /// The call that tells of this.
    pub fn declares(&self) -> (k: AdvertKind)
        ensures
            k == self.spec_declares(),
    {
        match self {
            Interest::Subscription(info) => AdvertKind::Subscriber(*info),
            Interest::Queryable => AdvertKind::Queryable,
        }
    }

    /// The call that tells of the end of this.
    pub fn forgets(&self) -> (k: AdvertKind)
        ensures
            k == self.spec_forgets(),
    {
        match self {
            Interest::Subscription(_) => AdvertKind::ForgetSubscriber,
            Interest::Queryable => AdvertKind::ForgetQueryable,
        }
    }

    /// The context `c` with this declared (`on`) or taken back.
    pub open spec fn apply(self, c: Context, on: bool) -> Context {
        match self {
            Interest::Subscription(info) => Context {
                subs: if on {
                    Some(info)
                } else {
                    None
                },
                ..c
            },
            Interest::Queryable => Context { qabl: on, ..c },
        }
    }

    /// The context `c` has something of this kind declared.
    pub open spec fn held_in(self, c: Context) -> bool {
        match self {
            Interest::Subscription(_) => c.subs is Some,
            Interest::Queryable => c.qabl,
        }
    }
}

impl Tables {
    /// The calls `out` tell the faces that are to know what the face `from`
    /// declared, each once and with a key that it reads as `name`.
    pub open(crate) spec fn announced(
        &self,
        pre: Tables,
        from: usize,
        name: Seq<char>,
        kind: AdvertKind,
        out: Seq<Outbound>,
    ) -> bool {
        &&& forall|i: int|
            0 <= i < out.len() ==> pre.tells(from, (#[trigger] out[i]).face) && self.advert_ok(
                out[i],
                name,
                kind,
            )
        &&& forall|g: usize| #[trigger] pre.tells(from, g) ==> told_to(out, g, kind)
        &&& told_once(out, kind)
    }

    /// Every id that was given to a resource in `pre` is given to it.
    pub open(crate) spec fn keeps_ids(&self, pre: Tables) -> bool {
        forall|g: usize, r: ResourceId|
            pre.has_face(g) && (#[trigger] pre.bound(g, r)) is Some ==> self.bound(g, r)
                == pre.bound(g, r)
    }

    /// What every face has declared on every resource is what it was in
    /// `pre`, but for what the face `f` has declared on the resource `n`,
    /// which is `c`; on a resource that `pre` did not have, nothing.
    pub open(crate) spec fn contexts_but(&self, pre: Tables, n: usize, f: usize, c: Context) -> bool {
        forall|m: usize, g: usize|
            m < self.spec_len() ==> (#[trigger] self.sub(m, g)) == (if m == n && g == f {
                c.subs
            } else if m < pre.spec_len() {
                pre.sub(m, g)
            } else {
                None
            }) && self.queryable(m, g) == (if m == n && g == f {
                c.qabl
            } else {
                m < pre.spec_len() && pre.queryable(m, g)
            })
    }

    /// The tables `self` are the tables `pre` after the face `face` has
    /// declared `what` on the resource `n`, and `out` is what to tell the
    /// other faces.
    pub open(crate) spec fn declared(
        &self,
        pre: Tables,
        face: usize,
        n: usize,
        what: Interest,
        out: Seq<Outbound>,
    ) -> bool {
        &&& self.is_live(n)
        &&& self.keeps_faces(pre)
        &&& self.keeps_names(pre)
        &&& self.keeps_ids(pre)
        &&& self.contexts_but(pre, n, face, what.apply(pre.context_or_none(n, face), true))
        &&& self.announced(pre, face, self.name(n), what.spec_declares(), out)
        &&& self.told_exactly(pre, *self, face, n, what.spec_declares(), out)
        &&& self.made_for(pre, n)
    }

    /// Every id in a context is the id that stood there in `pre`; on a
    /// resource that `pre` did not have, there is none.
    pub open(crate) spec fn same_ids(&self, pre: Tables) -> bool {
        forall|m: usize, h: usize|
            m < self.spec_len() ==> (#[trigger] self.context(m, h)).remote_rid
                == pre.context_or_none(m, h).remote_rid && self.context(m, h).local_rid
                == pre.context_or_none(m, h).local_rid
    }

    /// The ids in the tables `self` are those of the tables `pre` and those
    /// that the broker gave when it told the faces what the face `from`
    /// declared on a resource whose part free of wildcards is `part`: each
    /// of these ids is given to that part and is the id that the broker
    /// gave in the context of its face there, and on that face the broker
    /// goes on to look behind it. No other id of any face and no other id
    /// in any context has changed.
    pub open(crate) spec fn ids_after(
        &self,
        pre: Tables,
        from: usize,
        part: (Option<usize>, Seq<char>),
    ) -> bool {
        &&& forall|g: usize, r: ResourceId|
            g < pre.face_seq().len() ==> #[trigger] self.bound(g, r) == (if pre.id_for(
                from,
                g,
                part,
            ) == Some(r) {
                part.0
            } else {
                pre.bound(g, r)
            })
        &&& forall|g: usize|
            g < pre.face_seq().len() ==> #[trigger] self.first_local_id(g) == (if pre.id_for(
                from,
                g,
                part,
            ) is Some {
                after_id(pre.id_for(from, g, part)->0)
            } else {
                pre.first_local_id(g)
            })
        &&& forall|m: usize, h: usize|
            m < self.spec_len() ==> (#[trigger] self.context(m, h)).remote_rid
                == pre.context_or_none(m, h).remote_rid && self.context(m, h).local_rid == (
            if part.0 == Some(m) && pre.id_for(from, h, part) is Some {
                pre.id_for(from, h, part)
            } else {
                pre.context_or_none(m, h).local_rid
            })
    }

    /// The calls `out` are exactly what the faces are told when the face
    /// `from` declares something of the kind `kind` on the resource `n`,
    /// whose name and whose part free of wildcards are those that it has in
    /// the tables `at`, and the ids are what they are after that.
    ///
    /// A face that is told gets the call of the kind `kind`, with the id
    /// that it has for the part free of wildcards, one that the broker gave
    /// it rather than one that it gave itself, and what follows that part.
    /// A face that has no such id is given the first free id for that part
    /// and gets a `resource` call for it first. Where the name has no part
    /// free of wildcards, or no id is free, the key is the full name. A face
    /// that is not told gets no call.
    pub open(crate) spec fn told_exactly(
        &self,
        pre: Tables,
        at: Tables,
        from: usize,
        n: usize,
        kind: AdvertKind,
        out: Seq<Outbound>,
    ) -> bool {
        let part = free_part(at.nodes(), n as int);
        &&& forall|g: usize| #[trigger]
            calls_to(out, g) == pre.calls_for(
                from,
                g,
                part,
                at.part_name(part.0),
                at.name(n),
                kind,
            )
        &&& self.ids_after(pre, from, part)
    }

    /// What the face `f` has declared on the resource `n`; nothing where
    /// there is no such resource yet.
    pub open(crate) spec fn context_or_none(&self, n: usize, f: usize) -> Context {
        if n < self.spec_len() {
            self.context(n, f)
        } else {
            crate::routing::resource::empty_ctx(f)
        }
    }

    /// Notes that the face `face` has declared `what` on the resource with
    /// the name of `p` followed by `suffix`, which is made if it is not there.
    pub(crate) fn note_interest(&mut self, face: usize, p: usize, suffix: &str, what: Interest) -> (n:
        usize)
        requires
            old(self).consistent(),
            old(self).all_held(),
            old(self).has_face(face),
            old(self).is_live(p),
        ensures
            final(self).consistent(),
            final(self).all_held(),
            final(self).face_seq() == old(self).face_seq(),
            final(self).keeps_names(*old(self)),
            final(self).is_live(n),
            final(self).name(n) == old(self).name(p) + suffix@,
            final(self).resource_at(p, suffix@) == Some(n),
            final(self).contexts_but(
                *old(self),
                n,
                face,
                what.apply(old(self).context_or_none(n, face), true),
            ),
            final(self).same_ids(*old(self)),
            final(self).made_for(*old(self), n),
    {
        let n = self.make_resource(p, suffix);
        let ghost made = *self;
        match what {
            Interest::Subscription(info) => self.set_subs(n, face, Some(info)),
            Interest::Queryable => self.set_qabl(n, face, true),
        }
        proof {
            let a = old(self).resources@;
            let b = made.resources@;
            let c = self.resources@;
            lemma_ctx_of(b[n as int].contexts@, face);
            crate::routing::resource::lemma_descend_frame(b, c, p as int, suffix@);
            assert forall|m: usize| old(self).spec_len() <= m < self.spec_len() implies #[trigger] self.above(
                n,
                m,
            ) by {
                assert(crate::routing::clean::is_above(b, n as int, m as int));
                crate::routing::clean::lemma_is_above_same(b, c, n as int, m as int);
            }
            assert(held_but(c, n as int));
            assert(!what.apply(made.context(n, face), true).spec_is_empty());
            assert(c[n as int].contexts@.len() > 0);
            let ctx = what.apply(old(self).context_or_none(n, face), true);
            assert(made.context(n, face) == old(self).context_or_none(n, face)) by {
                if n < a.len() {
                    assert(b[n as int].contexts@ == a[n as int].contexts@);
                } else {
                    assert(b[n as int].contexts@.len() == 0);
                }
            }
            assert forall|m: usize, g: usize| m < self.spec_len() implies (#[trigger] self.sub(
                m,
                g,
            )) == (if m == n && g == face {
                ctx.subs
            } else if m < old(self).spec_len() {
                old(self).sub(m, g)
            } else {
                None
            }) && self.queryable(m, g) == (if m == n && g == face {
                ctx.qabl
            } else {
                m < old(self).spec_len() && old(self).queryable(m, g)
            }) by {
                if m == n {
                    if g != face {
                        assert(ctx_of(c[n as int].contexts@, g) == ctx_of(b[n as int].contexts@, g));
                    }
                } else {
                    assert(c[m as int].contexts@ == b[m as int].contexts@);
                }
                if m < a.len() {
                    assert(b[m as int].contexts@ == a[m as int].contexts@);
                } else {
                    assert(b[m as int].contexts@.len() == 0);
                }
            }
            assert forall|m: usize| m < old(self).spec_len() implies #[trigger] self.is_live(m)
                == old(self).is_live(m) && self.name(m) == old(self).name(m) by {
                assert(c[m as int].alive == b[m as int].alive);
                assert(b[m as int].alive == a[m as int].alive);
            }
            assert forall|m: usize, h: usize| m < self.spec_len() implies (#[trigger] self.context(
                m,
                h,
            )).remote_rid == old(self).context_or_none(m, h).remote_rid && self.context(
                m,
                h,
            ).local_rid == old(self).context_or_none(m, h).local_rid by {
                if m == n {
                    if h != face {
                        assert(ctx_of(c[n as int].contexts@, h) == ctx_of(b[n as int].contexts@, h));
                    }
                } else {
                    assert(c[m as int].contexts@ == b[m as int].contexts@);
                }
                if m < a.len() {
                    assert(b[m as int].contexts@ == a[m as int].contexts@);
                } else {
                    assert(b[m as int].contexts@.len() == 0);
                }
            }
        }
        n
    }

    /// What the face `f` has declared on the resource `n` is what it was
    /// in `set`; telling other faces changes none of it.
    pub(crate) proof fn lemma_spread_keeps(
        pre: Tables,
        set: Tables,
        told: Tables,
        post: Tables,
        n: usize,
        f: usize,
        c: Context,
    )
        requires
            set.keeps_names(pre),
            set.contexts_but(pre, n, f, c),
            set.face_seq() == pre.face_seq(),
            set.made_for(pre, n),
            told.spread(set),
            post.nodes() == told.nodes(),
            post.face_seq() == told.face_seq(),
        ensures
            post.made_for(pre, n),
            post.keeps_names(pre),
            post.contexts_but(pre, n, f, c),
            post.keeps_faces(pre),
            post.keeps_ids(pre),
    {
        assert forall|m: usize, g: usize| m < post.spec_len() implies (#[trigger] post.sub(
            m,
            g,
        )) == (if m == n && g == f {
            c.subs
        } else if m < pre.spec_len() {
            pre.sub(m, g)
        } else {
            None
        }) && post.queryable(m, g) == (if m == n && g == f {
            c.qabl
        } else {
            m < pre.spec_len() && pre.queryable(m, g)
        }) by {
            assert(ctx_of(told.nodes()[m as int].contexts@, g).subs == ctx_of(
                set.nodes()[m as int].contexts@,
                g,
            ).subs);
            assert(set.sub(m, g) == set.sub(m, g));
        }
        assert forall|m: usize| m < pre.spec_len() implies #[trigger] post.is_live(m)
            == pre.is_live(m) by {
            assert(told.nodes()[m as int].alive == set.nodes()[m as int].alive);
            assert(set.is_live(m) == pre.is_live(m));
        }
        assert forall|m: usize| m < pre.spec_len() implies #[trigger] post.name(m) == pre.name(
            m,
        ) by {
            assert(told.nodes()[m as int].name@ == set.nodes()[m as int].name@);
            assert(set.name(m) == pre.name(m));
        }
        assert forall|m: usize| m < pre.spec_len() implies #[trigger] post.parent(m)
            == pre.parent(m) && post.suffix(m) == pre.suffix(m) by {
            assert(told.nodes()[m as int].parent == set.nodes()[m as int].parent);
            assert(set.parent(m) == pre.parent(m));
        }
        assert forall|m: usize| pre.spec_len() <= m < post.spec_len() implies #[trigger] post.above(
            n,
            m,
        ) by {
            assert(set.above(n, m));
            crate::routing::clean::lemma_is_above_same(
                set.nodes(),
                post.nodes(),
                n as int,
                m as int,
            );
        }
        assert forall|g: usize| #[trigger] post.has_face(g) == pre.has_face(g) by {
            if g < told.face_seq().len() {
                assert(told.face_seq()[g as int].attached == set.face_seq()[g as int].attached);
            }
        }
        assert forall|g: usize| post.has_face(g) implies #[trigger] post.whatami(g) == pre.whatami(
            g,
        ) by {
            assert(told.face_seq()[g as int].whatami == set.face_seq()[g as int].whatami);
        }
        assert forall|g: usize, r: ResourceId|
            pre.has_face(g) && (#[trigger] pre.bound(g, r)) is Some implies post.bound(g, r)
            == pre.bound(g, r) by {
            assert(set.bound(g, r) == pre.bound(g, r));
            assert(told.bound(g, r) == set.bound(g, r));
        }
    }

    /// What the faces were told of a declaration, and the ids after it, in
    /// terms of the tables before the declaration.
    pub(crate) proof fn lemma_exact_declared(
        pre: Tables,
        set: Tables,
        told: Tables,
        post: Tables,
        from: usize,
        n: usize,
        kind: AdvertKind,
        out: Seq<Outbound>,
    )
        requires
            n < set.spec_len(),
            set.face_seq() == pre.face_seq(),
            set.same_ids(pre),
            pre.spec_len() <= set.spec_len(),
            told.spread(set),
            told.gave_all(
                set,
                from,
                free_part(set.nodes(), n as int),
                set.face_seq().len() as int,
            ),
            forall|g: usize| #[trigger]
                calls_to(out, g) == set.calls_for(
                    from,
                    g,
                    free_part(set.nodes(), n as int),
                    set.part_name(free_part(set.nodes(), n as int).0),
                    set.name(n),
                    kind,
                ),
            post.nodes() == told.nodes(),
            post.face_seq() == told.face_seq(),
        ensures
            post.told_exactly(pre, post, from, n, kind, out),
    {
        let part = free_part(set.nodes(), n as int);
        lemma_free_part_in(set.nodes(), n as int, Seq::empty());
        lemma_free_part_frame(set.nodes(), post.nodes(), n as int, Seq::empty());
        assert(free_part(post.nodes(), n as int) == part);
        assert(post.name(n) == set.name(n)) by {
            assert(told.nodes()[n as int].name@ == set.nodes()[n as int].name@);
        }
        assert(post.part_name(part.0) == set.part_name(part.0)) by {
            if let Some(q) = part.0 {
                assert(told.nodes()[q as int].name@ == set.nodes()[q as int].name@);
            }
        }
        assert forall|g: usize| set.id_for(from, g, part) == pre.id_for(from, g, part) by {
            if let Some(q) = part.0 {
                assert(set.context(q, g).remote_rid == pre.context_or_none(q, g).remote_rid);
            }
        }
        assert forall|g: usize| #[trigger]
            calls_to(out, g) == pre.calls_for(
                from,
                g,
                part,
                post.part_name(part.0),
                post.name(n),
                kind,
            ) by {
            if let Some(q) = part.0 {
                assert(set.context(q, g).remote_rid == pre.context_or_none(q, g).remote_rid);
            }
            assert(calls_to(out, g) == set.calls_for(
                from,
                g,
                part,
                set.part_name(part.0),
                set.name(n),
                kind,
            ));
        }
        assert forall|g: usize, r: ResourceId| g < pre.face_seq().len() implies #[trigger] post.bound(
            g,
            r,
        ) == (if pre.id_for(from, g, part) == Some(r) {
            part.0
        } else {
            pre.bound(g, r)
        }) by {
            assert(told.bound(g, r) == told.bound(g, r));
            assert(set.id_for(from, g, part) == pre.id_for(from, g, part));
            if set.id_for(from, g, part) is Some {
                assert(set.tells(from, g));
            }
        }
        assert forall|g: usize| g < pre.face_seq().len() implies #[trigger] post.first_local_id(g)
            == (if pre.id_for(from, g, part) is Some {
            after_id(pre.id_for(from, g, part)->0)
        } else {
            pre.first_local_id(g)
        }) by {
            assert(g < set.face_seq().len());
            assert(told.first_local_id(g) == (if set.id_for(from, g, part) is Some {
                after_id(set.id_for(from, g, part)->0)
            } else {
                set.first_local_id(g)
            }));
            assert(set.id_for(from, g, part) == pre.id_for(from, g, part));
            assert(set.first_local_id(g) == pre.first_local_id(g));
            assert(post.first_local_id(g) == told.first_local_id(g));
        }
        assert forall|m: usize, h: usize| m < post.spec_len() implies (#[trigger] post.context(
            m,
            h,
        )).remote_rid == pre.context_or_none(m, h).remote_rid && post.context(m, h).local_rid
            == (if part.0 == Some(m) && pre.id_for(from, h, part) is Some {
            pre.id_for(from, h, part)
        } else {
            pre.context_or_none(m, h).local_rid
        }) by {
            assert(told.context(m, h).remote_rid == set.context(m, h).remote_rid);
            assert(set.context(m, h).remote_rid == pre.context_or_none(m, h).remote_rid);
            assert(set.id_for(from, h, part) == pre.id_for(from, h, part));
            if set.id_for(from, h, part) is Some {
                assert(set.tells(from, h));
            }
        }
    }

    /// What the faces were told of the end of a declaration, and the ids
    /// after it.
    pub(crate) proof fn lemma_exact_undeclared(
        pre: Tables,
        told: Tables,
        dropped: Tables,
        post: Tables,
        from: usize,
        n: usize,
        kind: AdvertKind,
        out: Seq<Outbound>,
    )
        requires
            told.spread(pre),
            told.gave_all(
                pre,
                from,
                free_part(pre.nodes(), n as int),
                pre.face_seq().len() as int,
            ),
            forall|g: usize| #[trigger]
                calls_to(out, g) == pre.calls_for(
                    from,
                    g,
                    free_part(pre.nodes(), n as int),
                    pre.part_name(free_part(pre.nodes(), n as int).0),
                    pre.name(n),
                    kind,
                ),
            dropped.face_seq() == told.face_seq(),
            dropped.spec_len() == told.spec_len(),
            dropped.same_ids(told),
            post.nodes() == dropped.nodes(),
            post.face_seq() == dropped.face_seq(),
        ensures
            post.told_exactly(pre, pre, from, n, kind, out),
    {
        let part = free_part(pre.nodes(), n as int);
        assert forall|g: usize, r: ResourceId| g < pre.face_seq().len() implies #[trigger] post.bound(
            g,
            r,
        ) == (if pre.id_for(from, g, part) == Some(r) {
            part.0
        } else {
            pre.bound(g, r)
        }) by {
            assert(told.bound(g, r) == told.bound(g, r));
            if pre.id_for(from, g, part) is Some {
                assert(pre.tells(from, g));
            }
        }
        assert forall|g: usize| g < pre.face_seq().len() implies #[trigger] post.first_local_id(g)
            == (if pre.id_for(from, g, part) is Some {
            after_id(pre.id_for(from, g, part)->0)
        } else {
            pre.first_local_id(g)
        }) by {
            assert(told.first_local_id(g) == (if pre.id_for(from, g, part) is Some {
                after_id(pre.id_for(from, g, part)->0)
            } else {
                pre.first_local_id(g)
            }));
            assert(dropped.first_local_id(g) == told.first_local_id(g));
            assert(post.first_local_id(g) == dropped.first_local_id(g));
        }
        assert forall|m: usize, h: usize| m < post.spec_len() implies (#[trigger] post.context(
            m,
            h,
        )).remote_rid == pre.context_or_none(m, h).remote_rid && post.context(m, h).local_rid
            == (if part.0 == Some(m) && pre.id_for(from, h, part) is Some {
            pre.id_for(from, h, part)
        } else {
            pre.context_or_none(m, h).local_rid
        }) by {
            assert(dropped.context(m, h).remote_rid == told.context_or_none(m, h).remote_rid);
            assert(told.context(m, h).remote_rid == pre.context(m, h).remote_rid);
            if pre.id_for(from, h, part) is Some {
                assert(pre.tells(from, h));
            }
        }
    }

    /// What [`Tables::declare`] does. It refuses a face that is not
    /// attached, and an id that stands for nothing on the face, and changes
    /// nothing then. Else some resource `n` has the name asked for, and the
    /// tables are those before with `what` declared on `n` for the face.
    pub open(crate) spec fn declare_done(
        &self,
        pre: Tables,
        face: usize,
        prefixid: ResourceId,
        suffix: Seq<char>,
        what: Interest,
        r: Result<Vec<Outbound>, RoutingError>,
    ) -> bool {
        match r {
            Err(RoutingError::ClosedSession) => !pre.has_face(face) && *self == pre,
            Err(RoutingError::UnknownRid) => pre.has_face(face) && pre.mapping(face, prefixid)
                is None && *self == pre,
            Err(RoutingError::DuplicateRid) => false,
            Ok(out) => {
                &&& pre.has_face(face)
                &&& pre.mapping(face, prefixid) matches Some(p)
                &&& exists|n: usize|
                    self.resource_at(p, suffix) == Some(n) && self.name(n) == pre.name(p) + suffix
                        && #[trigger] self.declared(pre, face, n, what, out@)
            },
        }
    }

    /// Declares `what` for the face `face` on the resource with the name of
    /// the id `prefixid` followed by `suffix`, which is made if it is not
    /// there. The result is what to tell the other faces.
    pub fn declare(&mut self, face: usize, prefixid: ResourceId, suffix: &str, what: Interest) -> (r:
        Result<Vec<Outbound>, RoutingError>)
        requires
            old(self).wf(),
        ensures
            final(self).wf(),
            r is Ok == (old(self).has_face(face) && old(self).mapping(face, prefixid) is Some),
            final(self).declare_done(*old(self), face, prefixid, suffix@, what, r),
    {
        if !(face < self.faces.len() && self.faces[face].attached) {
            return Err(RoutingError::ClosedSession);
        }
        let p = match self.get_mapping(face, prefixid) {
            Some(p) => p,
            None => {
                return Err(RoutingError::UnknownRid);
            },
        };
        let n = self.note_interest(face, p, suffix, what);
        let ghost set = *self;
        let out = self.advertise(face, n, what.declares());
        let ghost told = *self;
        self.rebuild_routes();
        proof {
            let ctx = what.apply(old(self).context_or_none(n, face), true);
            Self::lemma_spread_keeps(*old(self), set, told, *self, n, face, ctx);
            Self::lemma_exact_declared(
                *old(self),
                set,
                told,
                *self,
                face,
                n,
                what.spec_declares(),
                out@,
            );
            assert(told.nodes()[n as int].name@ == set.nodes()[n as int].name@);
            assert(told.nodes()[n as int].alive == set.nodes()[n as int].alive);
            assert forall|i: int| 0 <= i < out@.len() implies old(self).tells(
                face,
                (#[trigger] out@[i]).face,
            ) && self.advert_ok(out@[i], self.name(n), what.spec_declares()) by {
                assert(set.tells(face, out@[i].face));
                assert(told.advert_ok(out@[i], set.name(n), what.spec_declares()));
            }
            assert forall|g: usize| #[trigger] old(self).tells(face, g) implies told_to(
                out@,
                g,
                what.spec_declares(),
            ) by {
                assert(set.tells(face, g));
            }
            assert(self.declared(*old(self), face, n, what, out@));
            assert(self.name(n) == old(self).name(p) + suffix@);
            assert(old(self).mapping(face, prefixid) == Some(p));
            assert(self.wf());
            crate::routing::resource::lemma_descend_frame(
                set.nodes(),
                told.nodes(),
                p as int,
                suffix@,
            );
            assert(self.resource_at(p, suffix@) == Some(n));
            assert(exists|x: usize|
                self.resource_at(p, suffix@) == Some(x) && self.name(x) == old(self).name(p)
                    + suffix@ && #[trigger] self.declared(*old(self), face, x, what, out@));
        }
        let ghost ov = out@;
        let r = Ok(out);
        proof {
            assert(r is Ok);
            assert(r->Ok_0@ == ov);
            assert(self.declared(*old(self), face, n, what, r->Ok_0@));
            assert(old(self).mapping(face, prefixid) matches Some(q) && q == p);
            assert(match r {
                Ok(o) => self.declared(*old(self), face, n, what, o@),
                Err(_) => false,
            });
        }
        assert(self.declare_done(*old(self), face, prefixid, suffix@, what, r));
        r
    }

    /// The tables `self` are the tables `pre` after the face `face` has
    /// taken back `what` from the resource `n`, and `out` is what to tell
    /// the other faces. The resource `n` and those above it have left if
    /// nothing holds them any more, and no other resource has.
    pub open(crate) spec fn undeclared(
        &self,
        pre: Tables,
        face: usize,
        n: usize,
        what: Interest,
        out: Seq<Outbound>,
    ) -> bool {
        &&& self.keeps_faces(pre)
        &&& self.keeps_names_of_live(pre)
        &&& self.keeps_ids(pre)
        &&& self.contexts_but(pre, n, face, what.apply(pre.context(n, face), false))
        &&& forall|m: usize|
            pre.is_live(m) && !(#[trigger] self.is_live(m)) ==> pre.above(n, m)
        &&& self.announced(pre, face, pre.name(n), what.spec_forgets(), out)
        &&& self.told_exactly(pre, pre, face, n, what.spec_forgets(), out)
    }

    /// What [`Tables::undeclare`] does. It refuses a face that is not
    /// attached, and an id that stands for nothing on the face. Where the
    /// resource is not there, or the face has nothing of that kind on it,
    /// nothing changes and nobody is told.
    pub open(crate) spec fn undeclare_done(
        &self,
        pre: Tables,
        face: usize,
        prefixid: ResourceId,
        suffix: Seq<char>,
        what: Interest,
        r: Result<Vec<Outbound>, RoutingError>,
    ) -> bool {
        match r {
            Err(RoutingError::ClosedSession) => !pre.has_face(face) && *self == pre,
            Err(RoutingError::UnknownRid) => pre.has_face(face) && pre.mapping(face, prefixid)
                is None && *self == pre,
            Err(RoutingError::DuplicateRid) => false,
            Ok(out) => {
                &&& pre.has_face(face)
                &&& pre.mapping(face, prefixid) matches Some(p)
                &&& match pre.resource_at(p, suffix) {
                    Some(n) => if what.held_in(pre.context(n, face)) {
                        self.undeclared(pre, face, n, what, out@)
                    } else {
                        *self == pre && out@.len() == 0
                    },
                    None => *self == pre && out@.len() == 0,
                }
            },
        }
    }

    /// Forgets that the face `face` had declared `what` on the resource `n`,
    /// and prunes what nothing holds any more.
    pub(crate) fn drop_interest(&mut self, face: usize, n: usize, what: Interest)
        requires
            old(self).consistent(),
            old(self).all_held(),
            old(self).has_face(face),
            old(self).is_live(n),
        ensures
            final(self).consistent(),
            final(self).all_held(),
            final(self).face_seq() == old(self).face_seq(),
            final(self).keeps_names_of_live(*old(self)),
            final(self).contexts_but(
                *old(self),
                n,
                face,
                what.apply(old(self).context(n, face), false),
            ),
            forall|m: usize|
                old(self).is_live(m) && !(#[trigger] final(self).is_live(m)) ==> old(self).above(
                    n,
                    m,
                ),
            final(self).same_ids(*old(self)),
    {
        match what {
            Interest::Subscription(_) => self.set_subs(n, face, None),
            Interest::Queryable => self.set_qabl(n, face, false),
        }
        let ghost set = *self;
        let nres = self.resources.len();
        self.clean(n);
        proof {
            let a = old(self).resources@;
            let b = set.resources@;
            let c = self.resources@;
            assert(a.len() == nres);
            let ctx = what.apply(old(self).context(n, face), false);
            lemma_ctx_of(a[n as int].contexts@, face);
            assert forall|m: usize, g: usize| m < self.spec_len() implies (#[trigger] self.sub(
                m,
                g,
            )) == (if m == n && g == face {
                ctx.subs
            } else if m < old(self).spec_len() {
                old(self).sub(m, g)
            } else {
                None
            }) && self.queryable(m, g) == (if m == n && g == face {
                ctx.qabl
            } else {
                m < old(self).spec_len() && old(self).queryable(m, g)
            }) by {
                assert(stays(set.nodes()[m as int], self.nodes()[m as int]));
                if m == n {
                    if g != face {
                        assert(ctx_of(b[n as int].contexts@, g) == ctx_of(a[n as int].contexts@, g));
                    }
                } else {
                    assert(b[m as int].contexts@ == a[m as int].contexts@);
                }
            }
            assert forall|m: usize| m < old(self).spec_len() implies (#[trigger] self.is_live(m)
                ==> old(self).is_live(m)) && self.name(m) == old(self).name(m) by {
                assert(stays(set.nodes()[m as int], self.nodes()[m as int]));
                assert(b[m as int].alive == a[m as int].alive);
            }
            assert forall|m: usize|
                old(self).is_live(m) && !(#[trigger] self.is_live(m)) implies old(self).above(
                n,
                m,
            ) by {
                assert(set.is_live(m));
                assert(set.above(n, m));
                crate::routing::clean::lemma_is_above_same(a, b, n as int, m as int);
            }
            assert forall|m: usize, h: usize| m < self.spec_len() implies (#[trigger] self.context(
                m,
                h,
            )).remote_rid == old(self).context_or_none(m, h).remote_rid && self.context(
                m,
                h,
            ).local_rid == old(self).context_or_none(m, h).local_rid by {
                assert(stays(set.nodes()[m as int], self.nodes()[m as int]));
                if m == n {
                    if h != face {
                        assert(ctx_of(b[n as int].contexts@, h) == ctx_of(a[n as int].contexts@, h));
                    }
                } else {
                    assert(b[m as int].contexts@ == a[m as int].contexts@);
                }
            }
        }
    }

    /// Takes back `what` for the face `face` from the resource with the name
    /// of the id `prefixid` followed by `suffix`. The result is what to tell
    /// the other faces.
    pub fn undeclare(&mut self, face: usize, prefixid: ResourceId, suffix: &str, what: Interest) -> (r:
        Result<Vec<Outbound>, RoutingError>)
        requires
            old(self).wf(),
        ensures
            final(self).wf(),
            r is Ok == (old(self).has_face(face) && old(self).mapping(face, prefixid) is Some),
            final(self).undeclare_done(*old(self), face, prefixid, suffix@, what, r),
    {
        if !(face < self.faces.len() && self.faces[face].attached) {
            return Err(RoutingError::ClosedSession);
        }
        let p = match self.get_mapping(face, prefixid) {
            Some(p) => p,
            None => {
                return Err(RoutingError::UnknownRid);
            },
        };
        let n = match self.lookup(p, suffix) {
            Some(n) => n,
            None => {
                return Ok(Vec::new());
            },
        };
        let c = self.get_context(n, face);
        let held = match what {
            Interest::Subscription(_) => c.subs.is_some(),
            Interest::Queryable => c.qabl,
        };
        if !held {
            return Ok(Vec::new());
        }
        let out = self.advertise(face, n, what.forgets());
        let ghost told = *self;
        self.drop_interest(face, n, what);
        let ghost dropped = *self;
        self.rebuild_routes();
        let ghost ov = out@;
        let r = Ok(out);
        proof {
            let pre = *old(self);
            let ctx = what.apply(pre.context(n, face), false);
            assert(told.context(n, face).subs == pre.context(n, face).subs);
            assert(told.context(n, face).qabl == pre.context(n, face).qabl);
            self.lemma_rids_irrelevant(told.context(n, face), pre.context(n, face), what);
            Self::lemma_told_then_dropped(pre, told, dropped, *self, n, face, what, ov);
            Self::lemma_exact_undeclared(
                pre,
                told,
                dropped,
                *self,
                face,
                n,
                what.spec_forgets(),
                ov,
            );
            assert(r->Ok_0@ == ov);
            assert(pre.mapping(face, prefixid) matches Some(q) && q == p);
            assert(pre.resource_at(p, suffix@) == Some(n));
            assert(what.held_in(pre.context(n, face)));
            assert(self.undeclared(pre, face, n, what, r->Ok_0@));
        }
        assert(self.undeclare_done(*old(self), face, prefixid, suffix@, what, r));
        r
    }

    /// What a context says of subscriptions and of queries after something
    /// was taken back does not depend on its ids.
    pub(crate) proof fn lemma_rids_irrelevant(&self, a: Context, b: Context, what: Interest)
        requires
            a.subs == b.subs,
            a.qabl == b.qabl,
        ensures
            what.apply(a, false).subs == what.apply(b, false).subs,
            what.apply(a, false).qabl == what.apply(b, false).qabl,
    {
    }

    /// What was told before something was taken back holds after it.
    pub(crate) proof fn lemma_told_then_dropped(
        pre: Tables,
        told: Tables,
        dropped: Tables,
        post: Tables,
        n: usize,
        face: usize,
        what: Interest,
        out: Seq<Outbound>,
    )
        requires
            pre.consistent(),
            pre.has_face(face),
            pre.is_live(n),
            told.consistent(),
            told.spread(pre),
            told.announced(pre, face, pre.name(n), what.spec_forgets(), out),
            dropped.face_seq() == told.face_seq(),
            dropped.keeps_names_of_live(told),
            dropped.contexts_but(told, n, face, what.apply(told.context(n, face), false)),
            forall|m: usize|
                told.is_live(m) && !(#[trigger] dropped.is_live(m)) ==> told.above(n, m),
            post.nodes() == dropped.nodes(),
            post.face_seq() == dropped.face_seq(),
            what.apply(told.context(n, face), false).subs == what.apply(
                pre.context(n, face),
                false,
            ).subs,
            what.apply(told.context(n, face), false).qabl == what.apply(
                pre.context(n, face),
                false,
            ).qabl,
        ensures
            post.keeps_faces(pre),
            post.keeps_names_of_live(pre),
            post.keeps_ids(pre),
            post.contexts_but(pre, n, face, what.apply(pre.context(n, face), false)),
            forall|m: usize| pre.is_live(m) && !(#[trigger] post.is_live(m)) ==> pre.above(n, m),
            post.announced(pre, face, pre.name(n), what.spec_forgets(), out),
    {
        let ctx = what.apply(pre.context(n, face), false);
        assert forall|m: usize, g: usize| m < post.spec_len() implies (#[trigger] post.sub(
            m,
            g,
        )) == (if m == n && g == face {
            ctx.subs
        } else if m < pre.spec_len() {
            pre.sub(m, g)
        } else {
            None
        }) && post.queryable(m, g) == (if m == n && g == face {
            ctx.qabl
        } else {
            m < pre.spec_len() && pre.queryable(m, g)
        }) by {
            assert(dropped.sub(m, g) == dropped.sub(m, g));
            assert(ctx_of(told.nodes()[m as int].contexts@, g).subs == ctx_of(
                pre.nodes()[m as int].contexts@,
                g,
            ).subs);
        }
        assert forall|m: usize| #[trigger] post.is_live(m) implies pre.is_live(m) by {
            assert(dropped.is_live(m));
            assert(told.is_live(m));
            assert(told.nodes()[m as int].alive == pre.nodes()[m as int].alive);
        }
        assert forall|m: usize| m < pre.spec_len() implies #[trigger] post.name(m) == pre.name(
            m,
        ) by {
            assert(dropped.name(m) == told.name(m));
            assert(told.nodes()[m as int].name@ == pre.nodes()[m as int].name@);
        }
        assert forall|m: usize| m < pre.spec_len() implies #[trigger] post.parent(m)
            == pre.parent(m) && post.suffix(m) == pre.suffix(m) by {
            assert(dropped.parent(m) == told.parent(m));
            assert(told.nodes()[m as int].parent == pre.nodes()[m as int].parent);
        }
        assert forall|g: usize| #[trigger] post.has_face(g) == pre.has_face(g) by {
            if g < told.face_seq().len() {
                assert(told.face_seq()[g as int].attached == pre.face_seq()[g as int].attached);
            }
        }
        assert forall|g: usize| post.has_face(g) implies #[trigger] post.whatami(g) == pre.whatami(
            g,
        ) by {
            assert(told.face_seq()[g as int].whatami == pre.face_seq()[g as int].whatami);
        }
        assert forall|g: usize, r: ResourceId|
            pre.has_face(g) && (#[trigger] pre.bound(g, r)) is Some implies post.bound(g, r)
            == pre.bound(g, r) by {
            assert(told.bound(g, r) == pre.bound(g, r));
        }
        assert forall|m: usize| pre.is_live(m) && !(#[trigger] post.is_live(m)) implies pre.above(
            n,
            m,
        ) by {
            assert(told.nodes()[m as int].alive == pre.nodes()[m as int].alive);
            assert(told.is_live(m));
            assert(!dropped.is_live(m));
            assert(told.above(n, m));
            crate::routing::clean::lemma_is_above_same(
                pre.nodes(),
                told.nodes(),
                n as int,
                m as int,
            );
        }
        assert forall|i: int| 0 <= i < out.len() implies pre.tells(
            face,
            (#[trigger] out[i]).face,
        ) && post.advert_ok(out[i], pre.name(n), what.spec_forgets()) by {
            let o = out[i];
            assert(told.advert_ok(o, pre.name(n), what.spec_forgets()));
            assert forall|r: ResourceId| (#[trigger] told.mapping(o.face, r)) is Some implies post.mapping(
                o.face,
                r,
            ) == told.mapping(o.face, r) && post.name(told.mapping(o.face, r)->0) == told.name(
                told.mapping(o.face, r)->0,
            ) by {
                let q = told.mapping(o.face, r)->0;
                if r != NO_RESOURCE_ID {
                    let ms = told.face_seq()[o.face as int].mappings@;
                    crate::routing::face::lemma_mapping_pos(ms, r);
                    let k = crate::routing::face::mapping_pos(ms, r)->0;
                    assert(crate::routing::tables::mapping_ok(
                        told.face_seq()[o.face as int].mappings@[k],
                        o.face as int,
                        told.nodes(),
                    ));
                }
                assert(told.is_live(q));
                assert(dropped.name(q) == told.name(q));
            }
            match o.call {
                crate::proto::primitives::Call::Resource { rid, reskey } => {
                    assert(told.mapping(o.face, rid) is Some);
                },
                other => {
                    let key = what.spec_forgets().key_of(other@)->0;
                    assert(told.mapping(o.face, key.rid()) is Some);
                },
            }
        }
    }
}

} // verus!
