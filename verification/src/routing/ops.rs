//! What a face asks of the tables: to attach and to detach, and to give a
//! resource an id and to take it back.

use vstd::prelude::*;
use crate::routing::clean::is_above;
use crate::proto::decl::SubInfo;
use crate::proto::primitives::{Call, CallView};
use crate::routing::contexts::ctx_put;
use crate::routing::faces::{with_rid, without_rid};
use crate::routing::keys::rid_target;
use crate::routing::names::{concat, str_eq};
use crate::routing::outbound::{
    lemma_says_push, qabl_call, says, sub_call, Outbound, RoutingError,
};
use crate::routing::resource::{
    ctx_of, ctx_pos, distinct_faces, lemma_ctx_of, lemma_ctx_pos, lemma_ctx_pos_at, live, Context,
    Resource,
};
use crate::routing::tables::Tables;
use crate::types::{ResKey, ResourceId, WhatAmI};

verus! {

/// Where a context was put that says of subscriptions and queries what the
/// context before it said, every face has the subscriptions that it had.
pub(crate) proof fn lemma_put_keeps_subs(a: Seq<Resource>, b: Seq<Resource>, n: int, c: Context)
    requires
        ctx_put(a, b, n, c),
        0 <= n < a.len(),
        c.subs == ctx_of(a[n].contexts@, c.face).subs,
        c.qabl == ctx_of(a[n].contexts@, c.face).qabl,
    ensures
        forall|m: int, g: usize|
            0 <= m < a.len() ==> (#[trigger] ctx_of(b[m].contexts@, g)).subs == ctx_of(
                a[m].contexts@,
                g,
            ).subs && ctx_of(b[m].contexts@, g).qabl == ctx_of(a[m].contexts@, g).qabl,
{
    assert forall|m: int, g: usize| 0 <= m < a.len() implies (#[trigger] ctx_of(
        b[m].contexts@,
        g,
    )).subs == ctx_of(a[m].contexts@, g).subs && ctx_of(b[m].contexts@, g).qabl == ctx_of(
        a[m].contexts@,
        g,
    ).qabl by {
        if m == n {
            if g == c.face {
            } else {
                assert(ctx_of(b[n].contexts@, g) == ctx_of(a[n].contexts@, g));
            }
        } else {
            assert(b[m].contexts@ == a[m].contexts@);
        }
    }
}

impl Tables {
    /// The subscription of the face `f` to the resource `n`.
    pub open(crate) spec fn sub(&self, n: usize, f: usize) -> Option<SubInfo> {
        self.context(n, f).subs
    }

    /// The face `f` answers queries on the resource `n`.
    pub open(crate) spec fn queryable(&self, n: usize, f: usize) -> bool {
        self.context(n, f).qabl
    }

    /// The resources of `pre` are resources of `self`, as live as they were,
    /// with the name that they had and at their place in the trie: under
    /// the parent and with the chunk that they had.
    pub open(crate) spec fn keeps_names(&self, pre: Tables) -> bool {
        &&& pre.spec_len() <= self.spec_len()
        &&& forall|m: usize| m < pre.spec_len() ==> #[trigger] self.is_live(m) == pre.is_live(m)
        &&& forall|m: usize| m < pre.spec_len() ==> #[trigger] self.name(m) == pre.name(m)
        &&& self.keeps_places(pre)
    }

    /// Every resource that `pre` did not have is the resource `n` or one of
    /// those above it: no other resource was made.
    pub open(crate) spec fn made_for(&self, pre: Tables, n: usize) -> bool {
        forall|m: usize| pre.spec_len() <= m < self.spec_len() ==> #[trigger] self.above(n, m)
    }

    /// Every id in a context is the id that stood there in `pre`, but in the
    /// context of the face `f` at the resource `n`, whose ids are those of
    /// `c`; on a resource that `pre` did not have, there is no other id.
    pub open(crate) spec fn ids_but(&self, pre: Tables, n: usize, f: usize, c: Context) -> bool {
        forall|m: usize, h: usize|
            m < self.spec_len() ==> (#[trigger] self.context(m, h)).remote_rid == (if m == n && h
                == f {
                c.remote_rid
            } else {
                pre.context_or_none(m, h).remote_rid
            }) && self.context(m, h).local_rid == (if m == n && h == f {
                c.local_rid
            } else {
                pre.context_or_none(m, h).local_rid
            })
    }

    /// Every resource of `pre` is at its place in the trie: under the parent
    /// and with the chunk that it had.
    pub open(crate) spec fn keeps_places(&self, pre: Tables) -> bool {
        forall|m: usize|
            m < pre.spec_len() ==> #[trigger] self.parent(m) == pre.parent(m) && self.suffix(m)
                == pre.suffix(m)
    }

    /// Every face has the subscriptions and answers the queries that it did
    /// in `pre`, and none on a resource that `pre` did not have.
    pub open(crate) spec fn keeps_subs(&self, pre: Tables) -> bool {
        forall|m: usize, g: usize|
            m < self.spec_len() ==> (#[trigger] self.sub(m, g)) == (if m < pre.spec_len() {
                pre.sub(m, g)
            } else {
                None
            }) && self.queryable(m, g) == (m < pre.spec_len() && pre.queryable(m, g))
    }

    /// The faces are those of `pre`, attached or not as they were, in the role that they had.
    pub open(crate) spec fn keeps_faces(&self, pre: Tables) -> bool {
        &&& self.face_seq().len() == pre.face_seq().len()
        &&& forall|g: usize| #[trigger] self.has_face(g) == pre.has_face(g)
        &&& forall|g: usize| self.has_face(g) ==> #[trigger] self.whatami(g) == pre.whatami(g)
    }

    /// Every id is given on every face to what it was given to in `pre`, but
    /// for the id `rid` on the face `f`, and on every face the broker starts
    /// to look for an id to give where it did.
    pub open(crate) spec fn keeps_ids_but(&self, pre: Tables, f: usize, rid: ResourceId) -> bool {
        &&& forall|g: usize, r: ResourceId|
            pre.has_face(g) && !(g == f && r == rid) ==> #[trigger] self.bound(g, r) == pre.bound(
                g,
                r,
            )
        &&& forall|g: usize|
            g < pre.face_seq().len() ==> #[trigger] self.first_local_id(g) == pre.first_local_id(g)
    }

    /// The name that the face `f` reads the key `key` as, if it reads it.
    pub open(crate) spec fn key_name(&self, f: usize, key: crate::types::ResKeyView) -> Option<
        Seq<char>,
    > {
        match self.mapping(f, key.rid()) {
            Some(n) => Some(self.name(n) + key.suffix()),
            None => None,
        }
    }

    /// Gives the resource with the name of the id `prefixid` followed by
    /// `suffix` the id `rid` on the face `face`. The resource is made if it
    /// is not there. An id that already stands for a resource with that name
    /// stays as it is; one that stands for another name is refused. That is
    /// so too where it was the broker that gave the face the id: an id
    /// stands for one resource on a face, whoever gave it.
    pub fn declare_resource(
        &mut self,
        face: usize,
        rid: ResourceId,
        prefixid: ResourceId,
        suffix: &str,
    ) -> (r: Result<(), RoutingError>)
        requires
            old(self).wf(),
        ensures
            final(self).wf(),
            final(self).keeps_faces(*old(self)),
            final(self).keeps_names(*old(self)),
            final(self).keeps_subs(*old(self)),
            final(self).keeps_ids_but(*old(self), face, rid),
            match r {
                Err(RoutingError::ClosedSession) => !old(self).has_face(face) && *final(self)
                    == *old(self),
                Err(RoutingError::UnknownRid) => old(self).has_face(face) && old(self).mapping(
                    face,
                    prefixid,
                ) is None && *final(self) == *old(self),
                Err(RoutingError::DuplicateRid) => {
                    &&& old(self).has_face(face)
                    &&& old(self).mapping(face, prefixid) matches Some(p)
                    &&& old(self).bound(face, rid) matches Some(n)
                    &&& old(self).name(n) != old(self).name(p) + suffix@
                    &&& *final(self) == *old(self)
                },
                Ok(()) => {
                    &&& old(self).has_face(face)
                    &&& old(self).mapping(face, prefixid) matches Some(p)
                    &&& old(self).bound(face, rid) matches Some(q) ==> old(self).name(q)
                        == old(self).name(p) + suffix@ && *final(self) == *old(self)
                    &&& final(self).bound(face, rid) matches Some(n)
                    &&& final(self).is_live(n)
                    &&& final(self).name(n) == old(self).name(p) + suffix@
                    &&& old(self).bound(face, rid) is None ==> final(self).resource_at(
                        p,
                        suffix@,
                    ) == Some(n)
                    &&& final(self).made_for(*old(self), n)
                    &&& old(self).bound(face, rid) is None ==> final(self).ids_but(
                        *old(self),
                        n,
                        face,
                        with_rid(old(self).context_or_none(n, face), rid, false),
                    )
                },
            },
    {
        if !(face < self.faces.len() && self.faces[face].attached) {
            return Err(RoutingError::ClosedSession);
        }
        let p = match self.get_mapping(face, prefixid) {
            Some(p) => p,
            None => {
                return Err(RoutingError::UnknownRid);
            },
        };
        match self.get_bound(face, rid) {
            Some(q) => {
                let name = concat(self.resources[p].name.as_str(), suffix);
                if str_eq(self.resources[q].name.as_str(), name.as_str()) {
                    return Ok(());
                } else {
                    return Err(RoutingError::DuplicateRid);
                }
            },
            None => {},
        }
        let n = self.make_resource(p, suffix);
        let ghost mid = *self;
        self.bind(face, rid, n, false);
        let ghost tied = *self;
        self.rebuild_routes();
        proof {
            let a = old(self).resources@;
            let b = mid.resources@;
            let c = self.resources@;
            let c0 = mid.context(n, face);
            lemma_ctx_of(b[n as int].contexts@, face);
            lemma_put_keeps_subs(b, c, n as int, with_rid(c0, rid, false));
            crate::routing::resource::lemma_descend_frame(b, c, p as int, suffix@);
            assert forall|m: usize| old(self).spec_len() <= m < self.spec_len() implies #[trigger] self.above(
                n,
                m,
            ) by {
                assert(is_above(b, n as int, m as int));
                crate::routing::clean::lemma_is_above_same(b, c, n as int, m as int);
            }
            assert(mid.context(n, face) == old(self).context_or_none(n, face)) by {
                if n < a.len() {
                    assert(b[n as int].contexts@ == a[n as int].contexts@);
                } else {
                    assert(b[n as int].contexts@.len() == 0);
                }
            }
            let c1 = with_rid(old(self).context_or_none(n, face), rid, false);
            assert forall|m: usize, h: usize| m < self.spec_len() implies (#[trigger] self.context(
                m,
                h,
            )).remote_rid == (if m == n && h == face {
                c1.remote_rid
            } else {
                old(self).context_or_none(m, h).remote_rid
            }) && self.context(m, h).local_rid == (if m == n && h == face {
                c1.local_rid
            } else {
                old(self).context_or_none(m, h).local_rid
            }) by {
                if m == n {
                    if h != face {
                        assert(ctx_of(c[n as int].contexts@, h) == ctx_of(b[n as int].contexts@, h));
                    }
                } else {
                    assert(c[m as int].contexts@ == b[m as int].contexts@);
                }
                if m < a.len() {
                    assert(b[m as int].contexts@ == a[m as int].contexts@);
                } else {
                    assert(b[m as int].contexts@.len() == 0);
                }
            }
            assert forall|m: usize, g: usize| m < self.spec_len() implies (#[trigger] self.sub(
                m,
                g,
            )) == (if m < old(self).spec_len() {
                old(self).sub(m, g)
            } else {
                None
            }) && self.queryable(m, g) == (m < old(self).spec_len() && old(self).queryable(
                m,
                g,
            )) by {
                assert(ctx_of(c[m as int].contexts@, g).subs == ctx_of(b[m as int].contexts@, g).subs);
                if m < a.len() {
                    assert(b[m as int].contexts@ == a[m as int].contexts@);
                } else {
                    assert(b[m as int].contexts@.len() == 0);
                }
            }
            assert forall|m: usize| m < old(self).spec_len() implies #[trigger] self.is_live(m)
                == old(self).is_live(m) && self.name(m) == old(self).name(m) by {
                assert(b[m as int].alive == a[m as int].alive);
            }
            assert forall|g: usize, r: ResourceId|
                old(self).has_face(g) && !(g == face && r == rid) implies #[trigger] self.bound(
                g,
                r,
            ) == old(self).bound(g, r) by {
                if g != face {
                    assert(self.faces@[g as int] == mid.faces@[g as int]);
                } else {
                    assert(tied.bound(face, r) == mid.bound(face, r));
                    assert(self.bound(face, r) == tied.bound(face, r));
                }
            }
        }
        Ok(())
    }

    /// No resource came, and every resource that is live was live in `pre`;
    /// the names are those of `pre`, and every resource is at the place in
    /// the trie that it had.
    pub open(crate) spec fn keeps_names_of_live(&self, pre: Tables) -> bool {
        &&& pre.spec_len() == self.spec_len()
        &&& forall|m: usize| #[trigger] self.is_live(m) ==> pre.is_live(m)
        &&& forall|m: usize| m < pre.spec_len() ==> #[trigger] self.name(m) == pre.name(m)
        &&& self.keeps_places(pre)
    }

    /// Makes the id `rid` stand for nothing on the face `face`. The resource
    /// that it stood for is pruned if nothing holds it any more, and so are
    /// the resources above it.
    pub fn undeclare_resource(&mut self, face: usize, rid: ResourceId) -> (r: Result<
        (),
        RoutingError,
    >)
        requires
            old(self).wf(),
        ensures
            final(self).wf(),
            final(self).keeps_faces(*old(self)),
            final(self).keeps_names_of_live(*old(self)),
            final(self).keeps_subs(*old(self)),
            final(self).keeps_ids_but(*old(self), face, rid),
            match r {
                Err(RoutingError::ClosedSession) => !old(self).has_face(face) && *final(self)
                    == *old(self),
                Err(RoutingError::UnknownRid) => old(self).has_face(face) && old(self).bound(
                    face,
                    rid,
                ) is None && *final(self) == *old(self),
                Err(RoutingError::DuplicateRid) => false,
                Ok(()) => {
                    &&& old(self).has_face(face)
                    &&& old(self).bound(face, rid) matches Some(n)
                    &&& final(self).bound(face, rid) is None
                    &&& final(self).ids_but(*old(self), n, face, old(self).ctx_without(face, rid, n))
                    &&& forall|m: usize|
                        old(self).is_live(m) && !(#[trigger] final(self).is_live(m)) ==> old(self).above(n, m)
                },
            },
    {
        if !(face < self.faces.len() && self.faces[face].attached) {
            return Err(RoutingError::ClosedSession);
        }
        let n = match self.unbind(face, rid) {
            Some(n) => n,
            None => {
                return Err(RoutingError::UnknownRid);
            },
        };
        let ghost mid = *self;
        self.clean(n);
        let ghost cleaned = *self;
        self.rebuild_routes();
        proof {
            let a = old(self).resources@;
            let b = mid.resources@;
            let c = self.resources@;
            let c0 = old(self).context(n, face);
            lemma_ctx_of(a[n as int].contexts@, face);
            let (local, other) = choose|local: bool, other: Option<ResourceId>|
                #[trigger] ctx_put(a, b, n as int, without_rid(c0, rid, local, other));
            lemma_put_keeps_subs(a, b, n as int, without_rid(c0, rid, local, other));
            assert(b.len() == a.len());
            assert(Tables::cleaned(mid, n, cleaned));
            assert(cleaned.spec_len() == mid.spec_len());
            assert(c == cleaned.resources@);
            assert forall|m: usize, g: usize| m < self.spec_len() implies (#[trigger] self.sub(
                m,
                g,
            )) == (if m < old(self).spec_len() {
                old(self).sub(m, g)
            } else {
                None
            }) && self.queryable(m, g) == (m < old(self).spec_len() && old(self).queryable(
                m,
                g,
            )) by {
                assert(crate::routing::clean::stays(mid.nodes()[m as int], cleaned.nodes()[m as int]));
                assert(ctx_of(b[m as int].contexts@, g).subs == ctx_of(a[m as int].contexts@, g).subs);
            }
            assert forall|m: usize| m < old(self).spec_len() implies (#[trigger] self.is_live(m)
                ==> old(self).is_live(m)) && self.name(m) == old(self).name(m) by {
                assert(crate::routing::clean::stays(mid.nodes()[m as int], cleaned.nodes()[m as int]));
                assert(b[m as int].alive == a[m as int].alive);
            }
            assert forall|g: usize, r: ResourceId|
                old(self).has_face(g) && !(g == face && r == rid) implies #[trigger] self.bound(
                g,
                r,
            ) == old(self).bound(g, r) by {
                if g != face {
                    assert(mid.faces@[g as int] == old(self).faces@[g as int]);
                } else {
                    assert(rid_target(mid.faces@[face as int], r) == rid_target(
                        old(self).faces@[face as int],
                        r,
                    ));
                }
            }
            assert forall|m: usize|
                old(self).is_live(m) && !(#[trigger] self.is_live(m)) implies old(self).above(
                n,
                m,
            ) by {
                assert(mid.is_live(m));
                assert(!cleaned.is_live(m));
                assert(mid.above(n, m));
                crate::routing::clean::lemma_is_above_same(a, b, n as int, m as int);
            }
        }
        Ok(())
    }

    /// The calls that tell of every subscription and of every queryable that
    /// a face has on a resource, each by the full name of the resource: in
    /// the order in which the resources were made and, for one resource, in
    /// the order in which the faces first declared something on it.
    pub open(crate) spec fn announcements(&self) -> Seq<CallView> {
        all_calls(self.resources@)
    }

    /// The tables `self` are the tables `pre` after a participant in the
    /// role `whatami` was attached, where `r` is its face and what to tell
    /// it: the face is new; nothing else has changed; the face is told of
    /// every subscription and every queryable of the other faces, each by
    /// the full name of its resource, and of nothing else.
    pub open(crate) spec fn attached(
        &self,
        pre: Tables,
        whatami: WhatAmI,
        r: (usize, Vec<Outbound>),
    ) -> bool {
        &&& r.0 == pre.face_seq().len()
        &&& self.face_seq().len() == r.0 + 1
        &&& self.has_face(r.0)
        &&& self.whatami(r.0) == whatami
        &&& forall|g: usize|
            g < r.0 ==> #[trigger] self.has_face(g) == pre.has_face(g) && self.whatami(g)
                == pre.whatami(g)
        &&& forall|g: usize, x: ResourceId| g < r.0 ==> #[trigger] self.bound(g, x) == pre.bound(g, x)
        &&& forall|g: usize| g < r.0 ==> #[trigger] self.first_local_id(g) == pre.first_local_id(g)
        &&& forall|x: ResourceId| (#[trigger] self.bound(r.0, x)) == None::<usize>
        &&& self.first_local_id(r.0) == 1
        &&& self.nodes() == pre.nodes()
        &&& forall|i: int|
            0 <= i < r.1@.len() ==> (#[trigger] r.1@[i]).face == r.0 && pre.announces(r.1@[i].call)
        &&& calls_of(r.1@) == pre.announcements()
        &&& forall|m: usize, g: usize|
            pre.is_live(m) && (#[trigger] pre.sub(m, g)) != None::<SubInfo> ==> says(
                r.1@,
                r.0,
                sub_call(pre.name(m), pre.sub(m, g)->0),
            )
        &&& forall|m: usize, g: usize|
            pre.is_live(m) && #[trigger] pre.queryable(m, g) ==> says(
                r.1@,
                r.0,
                qabl_call(pre.name(m)),
            )
    }

    /// Attaches a participant in the role `whatami`. The result is its face
    /// and what to tell it: every subscription and every queryable of the
    /// other faces, each by the full name of its resource.
    pub fn declare_session(&mut self, whatami: WhatAmI) -> (r: (usize, Vec<Outbound>))
        requires
            old(self).wf(),
        ensures
            final(self).wf(),
            final(self).attached(*old(self), whatami, r),
    {
        let f = self.add_face(whatami);
        self.rebuild_routes();
        let ghost rs = self.resources@;
        let ghost fs = old(self).faces@;
        let mut out: Vec<Outbound> = Vec::new();
        let mut m: usize = 0;
        proof {
            assert(rs.take(0) =~= Seq::empty());
            assert(calls_of(out@) =~= all_calls(rs.take(0)));
        }
        while m < self.resources.len()
            invariant
                m <= rs.len(),
                rs == self.resources@,
                rs == old(self).resources@,
                f == old(self).faces@.len(),
                old(self).wf(),
                calls_of(out@) == all_calls(rs.take(m as int)),
                forall|i: int|
                    0 <= i < out@.len() ==> (#[trigger] out@[i]).face == f && old(self).announces(
                        out@[i].call,
                    ),
                forall|x: int, k: int|
                    0 <= x < m && 0 <= k < rs[x].contexts@.len() ==> told(
                        out@,
                        f,
                        rs[x].name@,
                        #[trigger] rs[x].contexts@[k],
                    ),
            decreases rs.len() - m,
        {
            let n_ctx = self.resources[m].contexts.len();
            let mut k: usize = 0;
            proof {
                assert(rs[m as int].contexts@.take(0) =~= Seq::empty());
                assert(calls_of(out@) =~= all_calls(rs.take(m as int)) + node_calls(
                    rs[m as int].name@,
                    rs[m as int].contexts@.take(0),
                ));
            }
            while k < n_ctx
                invariant
                    k <= n_ctx,
                    m < rs.len(),
                    n_ctx == rs[m as int].contexts@.len(),
                    rs == self.resources@,
                    rs == old(self).resources@,
                    f == old(self).faces@.len(),
                    old(self).wf(),
                    calls_of(out@) == all_calls(rs.take(m as int)) + node_calls(
                        rs[m as int].name@,
                        rs[m as int].contexts@.take(k as int),
                    ),
                    forall|i: int|
                        0 <= i < out@.len() ==> (#[trigger] out@[i]).face == f && old(self).announces(out@[i].call),
                    forall|x: int, j: int|
                        0 <= x < m && 0 <= j < rs[x].contexts@.len() ==> told(
                            out@,
                            f,
                            rs[x].name@,
                            #[trigger] rs[x].contexts@[j],
                        ),
                    forall|j: int|
                        0 <= j < k ==> told(
                            out@,
                            f,
                            rs[m as int].name@,
                            #[trigger] rs[m as int].contexts@[j],
                        ),
                decreases n_ctx - k,
            {
                let c = self.resources[m].contexts[k];
                let ghost start = out@;
                proof {
                    assert(crate::routing::resource::dead_ok(rs[m as int]) || rs[m as int].alive);
                    assert(old(self).is_live(m));
                    lemma_ctx_pos_at(rs[m as int].contexts@, k as int);
                }
                match c.subs {
                    Some(info) => {
                        let ghost before = out@;
                        let call = Call::Subscriber {
                            reskey: ResKey::RName(self.resources[m].name.clone()),
                            sub_info: info,
                        };
                        let o = Outbound { face: f, call };
                        out.push(o);
                        proof {
                            assert(old(self).sub(m, c.face) == Some(info));
                            assert(o.call@ == sub_call(rs[m as int].name@, info));
                            lemma_told_push(before, o, f, rs, m as int, k as int);
                        }
                    },
                    None => {},
                }
                if c.qabl {
                    let ghost before = out@;
                    let call = Call::Storage {
                        reskey: ResKey::RName(self.resources[m].name.clone()),
                    };
                    let o = Outbound { face: f, call };
                    out.push(o);
                    proof {
                        assert(old(self).queryable(m, c.face));
                        assert(o.call@ == qabl_call(rs[m as int].name@));
                        lemma_told_push(before, o, f, rs, m as int, k as int);
                    }
                }
                proof {
                    assert(told(out@, f, rs[m as int].name@, rs[m as int].contexts@[k as int]));
                    let cs = rs[m as int].contexts@;
                    assert(cs.take(k + 1).drop_last() =~= cs.take(k as int));
                    assert(cs.take(k + 1).last() == c);
                    assert(calls_of(out@) =~= calls_of(start) + ctx_calls(rs[m as int].name@, c));
                    assert(calls_of(out@) =~= all_calls(rs.take(m as int)) + node_calls(
                        rs[m as int].name@,
                        cs.take(k + 1),
                    ));
                }
                k = k + 1;
            }
            proof {
                assert(rs[m as int].contexts@.take(k as int) =~= rs[m as int].contexts@);
                assert(rs.take(m + 1).drop_last() =~= rs.take(m as int));
                assert(rs.take(m + 1).last() == rs[m as int]);
            }
            m = m + 1;
        }
        proof {
            assert(rs.take(m as int) =~= rs);
            assert forall|x: usize, g: usize|
                old(self).is_live(x) && (#[trigger] old(self).sub(x, g)) != None::<
                    SubInfo,
                > implies says(out@, f, sub_call(old(self).name(x), old(self).sub(x, g)->0)) by {
                let cs = rs[x as int].contexts@;
                assert(distinct_faces(cs));
                lemma_ctx_pos(cs, g);
                let k = ctx_pos(cs, g)->0;
                assert(told(out@, f, rs[x as int].name@, rs[x as int].contexts@[k]));
            }
            assert forall|x: usize, g: usize|
                old(self).is_live(x) && #[trigger] old(self).queryable(x, g) implies says(
                out@,
                f,
                qabl_call(old(self).name(x)),
            ) by {
                let cs = rs[x as int].contexts@;
                assert(distinct_faces(cs));
                lemma_ctx_pos(cs, g);
                let k = ctx_pos(cs, g)->0;
                assert(told(out@, f, rs[x as int].name@, rs[x as int].contexts@[k]));
            }
        }
        (f, out)
    }

    /// The call tells of a subscription or of a queryable that some face has
    /// on a live resource, by the full name of the resource.
    pub open(crate) spec fn announces(&self, call: Call) -> bool {
        match call {
            Call::Subscriber { reskey, sub_info } => exists|m: usize, g: usize|
                self.is_live(m) && (#[trigger] self.sub(m, g)) == Some(sub_info) && reskey@
                    == crate::types::ResKeyView::RName(self.name(m)),
            Call::Storage { reskey } => exists|m: usize, g: usize|
                self.is_live(m) && #[trigger] self.queryable(m, g) && reskey@
                    == crate::types::ResKeyView::RName(self.name(m)),
            _ => false,
        }
    }
}

/// What the calls ask, in their order.
pub open spec fn calls_of(out: Seq<Outbound>) -> Seq<CallView> {
    Seq::new(out.len(), |i: int| out[i].call@)
}

/// The calls that tell of what the context `c` of the resource named `name`
/// says of subscriptions and of queries: the subscription if there is one,
/// then the queryable if there is one.
pub open spec fn ctx_calls(name: Seq<char>, c: Context) -> Seq<CallView> {
    let subs = match c.subs {
        Some(info) => seq![sub_call(name, info)],
        None => Seq::empty(),
    };
    if c.qabl {
        subs.push(qabl_call(name))
    } else {
        subs
    }
}

/// The calls that tell of what the contexts `cs` of the resource named
/// `name` say, in the order of the contexts.
pub open spec fn node_calls(name: Seq<char>, cs: Seq<Context>) -> Seq<CallView>
    decreases cs.len(),
{
    if cs.len() == 0 {
        Seq::empty()
    } else {
        node_calls(name, cs.drop_last()) + ctx_calls(name, cs.last())
    }
}

/// The calls that tell of every subscription and of every queryable on the
/// resources `rs`, in the order of the resources.
pub open(crate) spec fn all_calls(rs: Seq<Resource>) -> Seq<CallView>
    decreases rs.len(),
{
    if rs.len() == 0 {
        Seq::empty()
    } else {
        all_calls(rs.drop_last()) + node_calls(rs.last().name@, rs.last().contexts@)
    }
}

/// The calls `out` tell the face `f` of what the context `c` of the resource
/// named `name` says of subscriptions and of queries.
pub open spec fn told(out: Seq<Outbound>, f: usize, name: Seq<char>, c: Context) -> bool {
    &&& c.subs matches Some(info) ==> says(out, f, sub_call(name, info))
    &&& c.qabl ==> says(out, f, qabl_call(name))
}

/// What the calls told, they tell after one more call.
proof fn lemma_told_push(
    before: Seq<Outbound>,
    o: Outbound,
    f: usize,
    rs: Seq<Resource>,
    m: int,
    k: int,
)
    requires
        forall|x: int, j: int|
            0 <= x < m && 0 <= j < rs[x].contexts@.len() ==> told(
                before,
                f,
                rs[x].name@,
                #[trigger] rs[x].contexts@[j],
            ),
        forall|j: int|
            0 <= j < k ==> told(before, f, rs[m].name@, #[trigger] rs[m].contexts@[j]),
    ensures
        forall|x: int, j: int|
            0 <= x < m && 0 <= j < rs[x].contexts@.len() ==> told(
                before.push(o),
                f,
                rs[x].name@,
                #[trigger] rs[x].contexts@[j],
            ),
        forall|j: int|
            0 <= j < k ==> told(before.push(o), f, rs[m].name@, #[trigger] rs[m].contexts@[j]),
        forall|c: CallView| says(before, f, c) ==> says(before.push(o), f, c),
        says(before.push(o), o.face, o.call@),
{
    assert forall|c: CallView| says(before, f, c) implies says(before.push(o), f, c) by {
        lemma_says_push(before, o, f, c);
    }
    lemma_says_push(before, o, f, o.call@);
    assert forall|x: int, j: int| 0 <= x < m && 0 <= j < rs[x].contexts@.len() implies told(
        before.push(o),
        f,
        rs[x].name@,
        #[trigger] rs[x].contexts@[j],
    ) by {
        assert(told(before, f, rs[x].name@, rs[x].contexts@[j]));
    }
    assert forall|j: int| 0 <= j < k implies told(
        before.push(o),
        f,
        rs[m].name@,
        #[trigger] rs[m].contexts@[j],
    ) by {
        assert(told(before, f, rs[m].name@, rs[m].contexts@[j]));
    }
}

} // verus!
