//! Publish and subscribe: declaring and undeclaring subscriptions, and
//! routing data to the subscribers.

use vstd::prelude::*;
use crate::routing::adverts::{
    after_id, advert_key, calls_to, first_id, free_part, fresh_id, is_fresh, known_rid, lemma_calls_to_push,
    lemma_fresh,
    new_id,
};
use crate::proto::decl::SubInfo;
use crate::proto::primitives::{Call, CallView};
use crate::routing::face::{mapping_of, find_mapping_pos, lemma_mapping_pos, mapping_pos, Face};
use crate::routing::faces::{same_but_ids, with_rid};
use crate::routing::keys::resolves;
use crate::routing::ops::lemma_put_keeps_subs;
use crate::routing::outbound::{Outbound, RoutingError};
use crate::routing::resource::{ctx_of, lemma_ctx_of, Context, Resource, RouteEntry};
use crate::routing::routes::{interested, route_for, route_has, Seek};
use crate::routing::tables::Tables;
use crate::types::{ResKey, ResKeyView, ResourceId, WhatAmI, NO_RESOURCE_ID};

verus! {

/// Data goes between two roles, unless both are peers: peers talk to each
/// other without the broker.
pub open spec fn spec_relays(a: WhatAmI, b: WhatAmI) -> bool {
    !(a == WhatAmI::Peer && b == WhatAmI::Peer)
}

/// Whether data goes between two roles.
pub fn relays(a: WhatAmI, b: WhatAmI) -> (r: bool)
    ensures
        r == spec_relays(a, b),
{
    match (a, b) {
        (WhatAmI::Peer, WhatAmI::Peer) => false,
        _ => true,
    }
}

impl Tables {
    /// What the face `from` declares is told to the face `g`: `g` is another
    /// face, it is attached, and the two are not both peers.
    pub open(crate) spec fn tells(&self, from: usize, g: usize) -> bool {
        &&& g != from
        &&& self.has_face(g)
        &&& spec_relays(self.whatami(from), self.whatami(g))
    }

    /// The call `o` is right for telling its face of something on the
    /// resource named `name`: it gives an id to a resource, or it is the
    /// call `kind` with a key that the face reads as `name`.
    pub open(crate) spec fn advert_ok(&self, o: Outbound, name: Seq<char>, kind: AdvertKind) -> bool {
        match o.call {
            Call::Resource { rid, reskey } => {
                &&& rid != NO_RESOURCE_ID
                &&& self.mapping(o.face, rid) matches Some(q)
                &&& reskey@ == ResKeyView::RName(self.name(q))
            },
            other => kind.key_of(other@) matches Some(key) && self.key_name(o.face, key) == Some(
                name,
            ),
        }
    }

    /// Where the broker starts to look for an id to give on the face `g`:
    /// behind the greatest id that it has given on that face, and never at
    /// the id 0.
    pub open(crate) spec fn first_local_id(&self, g: usize) -> ResourceId {
        first_id(self.faces@[g as int])
    }

    /// An id that the broker may give to a resource on the face `g`: the
    /// first id, from where the broker starts to look, that is given to
    /// nothing on that face. There is none only where every id from there
    /// on is given.
    pub(crate) fn next_free_local_id(&self, g: usize) -> (r: Option<ResourceId>)
        requires
            self.has_face(g),
        ensures
            r == fresh_id(self.face_seq()[g as int]),
            match r {
                Some(rid) => {
                    &&& rid != NO_RESOURCE_ID
                    &&& self.mapping(g, rid) is None
                    &&& self.first_local_id(g) <= rid
                    &&& forall|x: ResourceId|
                        self.first_local_id(g) <= x < rid ==> (#[trigger] self.bound(g, x)) is Some
                },
                None => forall|x: ResourceId|
                    self.first_local_id(g) <= x ==> (#[trigger] self.bound(g, x)) is Some,
            },
    {
        let mut id = self.faces[g].next_local_id;
        if id == NO_RESOURCE_ID {
            id = 1;
        }
        loop
            invariant
                id != NO_RESOURCE_ID,
                self.has_face(g),
                self.first_local_id(g) <= id,
                forall|x: ResourceId|
                    self.first_local_id(g) <= x < id ==> (#[trigger] self.bound(g, x)) is Some,
            decreases u64::MAX - id,
        {
            match find_mapping_pos(&self.faces[g].mappings, id) {
                None => {
                    proof {
                        let face = self.faces@[g as int];
                        assert forall|x: ResourceId| first_id(face) <= x < id implies (
                        #[trigger] mapping_of(face.mappings@, x)) is Some by {
                            assert(self.bound(g, x) is Some);
                        }
                        assert(is_fresh(face, id));
                        lemma_fresh(face, id);
                    }
                    return Some(id);
                },
                Some(_) => {},
            }
            assert(self.bound(g, id) is Some);
            if id == u64::MAX {
                proof {
                    let face = self.faces@[g as int];
                    assert forall|x: ResourceId| !is_fresh(face, x) by {
                        if first_id(face) <= x {
                            assert(self.bound(g, x) is Some);
                            assert(mapping_of(face.mappings@, x) is Some);
                        }
                    }
                }
                return None;
            }
            id = id + 1;
        }
    }

    /// What the face `g` has declared on the part `np` of a name, if the
    /// name has such a part and the tables have it.
    pub open(crate) spec fn part_ctx(&self, g: usize, np: Option<usize>) -> Context {
        match np {
            Some(q) => self.context_or_none(q, g),
            None => crate::routing::resource::empty_ctx(g),
        }
    }

    /// The name of the part `np` of a name, if the name has such a part.
    pub open(crate) spec fn part_name(&self, np: Option<usize>) -> Seq<char> {
        match np {
            Some(q) => self.name(q),
            None => Seq::empty(),
        }
    }

    /// The tables `self` are the tables `pre` after the broker gave the
    /// face `g` the id `id`, if it is one, for the resource `np`: that id is
    /// given to that resource and is the id that the broker gave in the
    /// context of the face there, and the broker goes on to look behind it;
    /// every other id of the face and every other id in a context is what
    /// it was.
    pub open(crate) spec fn gave(
        &self,
        pre: Tables,
        g: usize,
        np: Option<usize>,
        id: Option<ResourceId>,
    ) -> bool {
        &&& forall|r: ResourceId| #[trigger]
            self.bound(g, r) == (if id == Some(r) {
                np
            } else {
                pre.bound(g, r)
            })
        &&& self.first_local_id(g) == (match id {
            Some(r) => after_id(r),
            None => pre.first_local_id(g),
        })
        &&& forall|m: usize, h: usize|
            m < pre.spec_len() ==> (#[trigger] self.context(m, h)).remote_rid == pre.context(
                m,
                h,
            ).remote_rid && self.context(m, h).local_rid == (if h == g && np == Some(m) && id
                is Some {
                id
            } else {
                pre.context(m, h).local_rid
            })
    }

    /// Tells the face `g` of something on the resource `n`, whose part free
    /// of wildcards is `np` and whose rest is `ws`: the call made by `kind`
    /// with the shortest key that `g` can read. Where `g` has no id for
    /// that part, the broker gives it one and tells `g` of it first.
    pub(crate) fn advertise_to(
        &mut self,
        g: usize,
        n: usize,
        np: Option<usize>,
        ws: &str,
        kind: AdvertKind,
        out: &mut Vec<Outbound>,
    )
        requires
            old(self).consistent(),
            old(self).all_held(),
            old(self).has_face(g),
            old(self).is_live(n),
            match np {
                Some(q) => q != 0 && old(self).is_live(q) && old(self).name(q) + ws@ == old(self).name(n),
                None => ws@ == old(self).name(n),
            },
        ensures
            final(self).consistent(),
            final(self).all_held(),
            final(self).advertised(*old(self), g),
            final(out)@.len() > old(out)@.len(),
            forall|i: int| 0 <= i < old(out)@.len() ==> #[trigger] final(out)@[i] == old(out)@[i],
            forall|i: int|
                old(out)@.len() <= i < final(out)@.len() ==> (#[trigger] final(out)@[i]).face == g
                    && final(self).advert_ok(final(out)@[i], old(self).name(n), kind),
            forall|i: int|
                old(out)@.len() <= i < final(out)@.len() ==> (kind.key_of(
                    (#[trigger] final(out)@[i]).call@,
                ) is Some <==> i == final(out)@.len() - 1),
            final(self).gave(
                *old(self),
                g,
                np,
                new_id(old(self).face_seq()[g as int], old(self).part_ctx(g, np), (np, ws@)),
            ),
            calls_to(final(out)@, g) == calls_to(old(out)@, g) + advert_calls(
                old(self).face_seq()[g as int],
                old(self).part_ctx(g, np),
                (np, ws@),
                old(self).part_name(np),
                old(self).name(n),
                kind,
            ),
            forall|h: usize| h != g ==> calls_to(final(out)@, h) == calls_to(old(out)@, h),
    {
        let ghost name = self.name(n);
        let ghost pre = *self;
        let ghost out0 = out@;
        let ghost mut given: Option<ResourceId> = None;
        let key = match np {
            Some(q) => {
                let c = self.get_context(q, g);
                let known = match (c.local_rid, c.remote_rid) {
                    (Some(rid), _) => Some(rid),
                    (None, Some(rid)) => if rid != NO_RESOURCE_ID {
                        Some(rid)
                    } else {
                        None
                    },
                    (None, None) => None,
                };
                proof {
                    self.lemma_context_fits(q, g);
                }
                match known {
                    Some(rid) => {
                        proof {
                            let ms = self.faces@[g as int].mappings@;
                            lemma_mapping_pos(ms, rid);
                        }
                        ResKey::from_parts(rid, String::from_str(ws))
                    },
                    None => {
                        match self.next_free_local_id(g) {
                            Some(rid) => {
                                self.bind(g, rid, q, true);
                                proof {
                                    let a = pre.resources@;
                                    let b = self.resources@;
                                    lemma_ctx_of(a[q as int].contexts@, g);
                                    lemma_put_keeps_subs(
                                        a,
                                        b,
                                        q as int,
                                        with_rid(pre.context(q, g), rid, true),
                                    );
                                }
                                let call = Call::Resource {
                                    rid,
                                    reskey: ResKey::RName(self.resources[q].name.clone()),
                                };
                                out.push(Outbound { face: g, call });
                                proof {
                                    given = Some(rid);
                                    assert(self.context(q, g).local_rid == Some(rid));
                                    assert forall|m: usize, h: usize|
                                        m < pre.spec_len() implies (#[trigger] self.context(
                                        m,
                                        h,
                                    )).remote_rid == pre.context(m, h).remote_rid && self.context(
                                        m,
                                        h,
                                    ).local_rid == (if h == g && np == Some(m) {
                                        Some(rid)
                                    } else {
                                        pre.context(m, h).local_rid
                                    }) by {
                                        if m != q {
                                            assert(self.resources@[m as int].contexts@
                                                == pre.resources@[m as int].contexts@);
                                        }
                                    }
                                }
                                ResKey::from_parts(rid, String::from_str(ws))
                            },
                            None => ResKey::RName(self.resources[n].name.clone()),
                        }
                    },
                }
            },
            None => ResKey::RName(self.resources[n].name.clone()),
        };
        proof {
            let rs = self.resources@;
            assert(rs[0].name@.len() == 0);
            assert(rs[0].name@ + name =~= name);
            if let Some(q) = np {
                if ws@.len() == 0 {
                    assert(rs[q as int].name@ + Seq::<char>::empty() =~= rs[q as int].name@);
                }
            }
            assert(self.key_name(g, key@) == Some(name));
        }
        let call = kind.call(key);
        let ghost out1 = out@;
        let o = Outbound { face: g, call };
        out.push(o);
        proof {
            let face = pre.face_seq()[g as int];
            let c = pre.part_ctx(g, np);
            let part = (np, ws@);
            assert(given == new_id(face, c, part));
            assert(key@ == advert_key(face, c, part, name));
            let told = advert_calls(face, c, part, pre.part_name(np), name, kind);
            lemma_calls_to_push(out1, o, g);
            if given is Some {
                let first = out1[out0.len() as int];
                assert(out1 =~= out0.push(first));
                lemma_calls_to_push(out0, first, g);
                assert(calls_to(out@, g) =~= calls_to(out0, g) + told);
            } else {
                assert(out1 =~= out0);
                assert(calls_to(out@, g) =~= calls_to(out0, g) + told);
            }
            assert forall|h: usize| h != g implies calls_to(out@, h) == calls_to(out0, h) by {
                lemma_calls_to_push(out1, o, h);
                if given is Some {
                    let first = out1[out0.len() as int];
                    lemma_calls_to_push(out0, first, h);
                }
            }
        }
    }

    /// The tables `self` are the tables `pre` after the face `g` was told of
    /// something: nothing changed but the ids of `g`, of which there may be
    /// one more, given by the broker.
    pub open(crate) spec fn advertised(&self, pre: Tables, g: usize) -> bool {
        &&& self.spec_len() == pre.spec_len()
        &&& self.routes@.len() == pre.routes@.len()
        &&& same_but_ids(pre.face_seq(), self.face_seq(), g as int)
        &&& forall|r: ResourceId|
            (#[trigger] pre.bound(g, r)) is Some ==> self.bound(g, r) == pre.bound(g, r)
        &&& forall|m: int|
            0 <= m < pre.spec_len() ==> (#[trigger] self.nodes()[m]).alive == pre.nodes()[m].alive
                && self.nodes()[m].name@ == pre.nodes()[m].name@ && self.nodes()[m].parent
                == pre.nodes()[m].parent && self.nodes()[m].suffix@ == pre.nodes()[m].suffix@
                && self.nodes()[m].children@ == pre.nodes()[m].children@
        &&& forall|m: int, h: usize|
            0 <= m < pre.spec_len() ==> (#[trigger] ctx_of(self.nodes()[m].contexts@, h)).subs
                == ctx_of(pre.nodes()[m].contexts@, h).subs && ctx_of(
                self.nodes()[m].contexts@,
                h,
            ).qabl == ctx_of(pre.nodes()[m].contexts@, h).qabl
    }
}

/// What a face is told of: a subscription, with what the subscriber asks
/// for, or the end of one; a queryable, or the end of one.
#[derive(Clone, Copy, Debug, PartialEq, Eq)]
pub enum AdvertKind {
    Subscriber(SubInfo),
    ForgetSubscriber,
    Queryable,
    ForgetQueryable,
}

impl AdvertKind {
    /// The key of the call, if the call is one of this kind.
    pub open spec fn key_of(self, call: CallView) -> Option<ResKeyView> {
        match (self, call) {
            (AdvertKind::Subscriber(info), CallView::Subscriber { reskey, sub_info }) => if sub_info
                == info {
                Some(reskey)
            } else {
                None
            },
            (AdvertKind::ForgetSubscriber, CallView::ForgetSubscriber { reskey }) => Some(reskey),
            (AdvertKind::Queryable, CallView::Storage { reskey }) => Some(reskey),
            (AdvertKind::ForgetQueryable, CallView::ForgetStorage { reskey }) => Some(reskey),
            _ => None,
        }
    }

    /// The call of this kind with the key `key`.
    pub open spec fn spec_call(self, key: ResKeyView) -> CallView {
        match self {
            AdvertKind::Subscriber(info) => CallView::Subscriber { reskey: key, sub_info: info },
            AdvertKind::ForgetSubscriber => CallView::ForgetSubscriber { reskey: key },
            AdvertKind::Queryable => CallView::Storage { reskey: key },
            AdvertKind::ForgetQueryable => CallView::ForgetStorage { reskey: key },
        }
    }

    /// The call of this kind with the key `key`.
    pub fn call(&self, key: ResKey) -> (c: Call)
        ensures
            self.key_of(c@) == Some(key@),
            c@ == self.spec_call(key@),
    {
        match self {
            AdvertKind::Subscriber(info) => Call::Subscriber { reskey: key, sub_info: *info },
            AdvertKind::ForgetSubscriber => Call::ForgetSubscriber { reskey: key },
            AdvertKind::Queryable => Call::Storage { reskey: key },
            AdvertKind::ForgetQueryable => Call::ForgetStorage { reskey: key },
        }
    }
}

/// A copy of the bytes.
pub fn copy_bytes(v: &Vec<u8>) -> (r: Vec<u8>)
    ensures
        r@ == v@,
{
    vstd::slice::slice_to_vec(v.as_slice())
}

/// A copy of the bytes, if there are any.
pub fn copy_opt_bytes(v: &Option<Vec<u8>>) -> (r: Option<Vec<u8>>)
    ensures
        crate::types::opt_bytes_view(r) == crate::types::opt_bytes_view(*v),
{
    match v {
        Some(b) => Some(copy_bytes(b)),
        None => None,
    }
}

/// A copy of the route.
pub fn copy_route(route: &Vec<RouteEntry>) -> (r: Vec<RouteEntry>)
    ensures
        r@.len() == route@.len(),
        forall|i: int|
            0 <= i < r@.len() ==> (#[trigger] r@[i]).face == route@[i].face && r@[i].rid
                == route@[i].rid && r@[i].suffix@ == route@[i].suffix@,
{
    let mut out: Vec<RouteEntry> = Vec::new();
    let mut i: usize = 0;
    while i < route.len()
        invariant
            i <= route.len(),
            out@.len() == i,
            forall|k: int|
                0 <= k < i ==> (#[trigger] out@[k]).face == route@[k].face && out@[k].rid
                    == route@[k].rid && out@[k].suffix@ == route@[k].suffix@,
        decreases route.len() - i,
    {
        let e = &route[i];
        out.push(RouteEntry { face: e.face, rid: e.rid, suffix: e.suffix.clone() });
        i = i + 1;
    }
    out
}

/// A route with the same faces and keys as the route for a name is the route for that name.
pub(crate) proof fn lemma_route_copy(
    rs: Seq<Resource>,
    fs: Seq<Face>,
    name: Seq<char>,
    a: Seq<RouteEntry>,
    b: Seq<RouteEntry>,
    what: Seek,
)
    requires
        route_for(rs, fs, name, a, what),
        b.len() == a.len(),
        forall|i: int|
            0 <= i < b.len() ==> (#[trigger] b[i]).face == a[i].face && b[i].rid == a[i].rid
                && b[i].suffix@ == a[i].suffix@,
    ensures
        route_for(rs, fs, name, b, what),
{
    assert forall|i: int| 0 <= i < b.len() implies {
        let e = #[trigger] b[i];
        &&& e.face < fs.len()
        &&& fs[e.face as int].attached
        &&& interested(rs, e.face, name, what)
        &&& resolves(rs, fs, e.face, e.rid, e.suffix@, name)
    } by {
        let x = a[i];
        assert(x.face < fs.len() && fs[x.face as int].attached && interested(rs, x.face, name, what));
    }
    assert forall|f: usize| #[trigger] interested(rs, f, name, what) implies route_has(b, f) by {
        assert(route_has(a, f));
        let i = choose|i: int| 0 <= i < a.len() && (#[trigger] a[i]).face == f;
        assert(b[i].face == f);
    }
    assert forall|i: int, j: int| 0 <= i < j < b.len() implies (#[trigger] b[i]).face != (
    #[trigger] b[j]).face by {
        assert(a[i].face != a[j].face);
    }
}

impl Tables {
    /// The face `g` has subscribed to a resource whose name intersects `name`.
    pub open(crate) spec fn has_subscriber(&self, g: usize, name: Seq<char>) -> bool {
        interested(self.resources@, g, name, Seek::Subscribers)
    }

    /// The route is the route for `name`: one entry for every face that has
    /// subscribed to a resource that intersects `name`, with a key that the
    /// face reads as `name`, and no other entry.
    pub open(crate) spec fn is_route(&self, name: Seq<char>, route: Seq<RouteEntry>) -> bool {
        route_for(self.resources@, self.faces@, name, route, Seek::Subscribers)
    }

    /// The route for data that the face `face` sends with the key made of
    /// `rid` and `suffix`: nothing where the face is not attached or has no
    /// resource for the id.
    pub fn route_data_to_map(&self, face: usize, rid: ResourceId, suffix: &str) -> (r: Option<
        Vec<RouteEntry>,
    >)
        requires
            self.wf(),
        ensures
            r is Some == (self.has_face(face) && self.mapping(face, rid) is Some),
            r matches Some(route) ==> self.is_route(
                self.name(self.mapping(face, rid)->0) + suffix@,
                route@,
            ) && self.has_best_keys(route@, self.mapping(face, rid)->0, suffix@),
    {
        self.route_to(face, rid, suffix, Seek::Subscribers)
    }

    /// Routes data that the face `face` sends with the key made of `rid` and
    /// `suffix`: a DATA call for every other face that has subscribed to a
    /// resource that intersects the name of the data, unless both faces are
    /// peers, with a key that the receiving face reads as that name.
    pub fn route_data(
        &self,
        face: usize,
        rid: ResourceId,
        suffix: &str,
        reliable: bool,
        info: &Option<Vec<u8>>,
        payload: &Vec<u8>,
    ) -> (r: Result<Vec<Outbound>, RoutingError>)
        requires
            self.wf(),
        ensures
            match r {
                Err(RoutingError::ClosedSession) => !self.has_face(face),
                Err(RoutingError::UnknownRid) => self.has_face(face) && self.mapping(face, rid)
                    is None,
                Err(RoutingError::DuplicateRid) => false,
                Ok(out) => self.has_face(face) && self.mapping(face, rid) is Some
                    && self.data_routed(
                    face,
                    self.mapping(face, rid)->0,
                    suffix@,
                    reliable,
                    crate::types::opt_bytes_view(*info),
                    payload@,
                    out@,
                ),
            },
    {
        let hops = match self.hops(face, rid, suffix, Seek::Subscribers) {
            Ok(hops) => hops,
            Err(e) => {
                return Err(e);
            },
        };
        let ghost p = self.mapping(face, rid)->0;
        let mut out: Vec<Outbound> = Vec::new();
        let mut i: usize = 0;
        while i < hops.len()
            invariant
                i <= hops@.len(),
                out@.len() == i,
                forall|k: int|
                    0 <= k < i ==> (#[trigger] out@[k]).face == hops@[k].face && out@[k].call@
                        == (CallView::Data {
                        reskey: ResKeyView::from_parts(hops@[k].rid, hops@[k].suffix@),
                        reliable,
                        info: crate::types::opt_bytes_view(*info),
                        payload: payload@,
                    }),
            decreases hops@.len() - i,
        {
            let e = &hops[i];
            let call = Call::Data {
                reskey: ResKey::from_parts(e.rid, e.suffix.clone()),
                reliable,
                info: copy_opt_bytes(info),
                payload: copy_bytes(payload),
            };
            out.push(Outbound { face: e.face, call });
            i = i + 1;
        }
        proof {
            assert forall|k: int| 0 <= k < out@.len() implies self.data_call_ok(
                face,
                p,
                suffix@,
                reliable,
                crate::types::opt_bytes_view(*info),
                payload@,
                #[trigger] out@[k],
            ) by {
                assert(self.hop_ok(face, p, suffix@, Seek::Subscribers, hops@[k]));
            }
            assert forall|g: usize|
                self.tells(face, g) && #[trigger] self.has_subscriber(
                    g,
                    self.name(p) + suffix@,
                ) implies outs_to(out@, g) by {
                assert(route_has(hops@, g));
                let j = choose|j: int| 0 <= j < hops@.len() && (#[trigger] hops@[j]).face == g;
                assert(out@[j].face == g);
            }
            assert forall|a: int, b: int| 0 <= a < b < out@.len() implies (#[trigger] out@[a]).face
                != (#[trigger] out@[b]).face by {
                assert(hops@[a].face != hops@[b].face);
            }
        }
        Ok(out)
    }


    /// The call `o` hands the data on to a face that it is for: another
    /// face, attached, not a peer if the sender is one, that has subscribed
    /// to a resource that intersects `name`; the key of the call is one that
    /// the face reads as `name`.
    pub open(crate) spec fn data_call_ok(
        &self,
        from: usize,
        prefix: usize,
        suffix: Seq<char>,
        reliable: bool,
        info: Option<Seq<u8>>,
        payload: Seq<u8>,
        o: Outbound,
    ) -> bool {
        &&& self.tells(from, o.face)
        &&& self.has_subscriber(o.face, self.name(prefix) + suffix)
        &&& o.call@ matches CallView::Data { reskey, reliable: r, info: i, payload: p }
        &&& r == reliable
        &&& i == info
        &&& p == payload
        &&& self.key_name(o.face, reskey) == Some(self.name(prefix) + suffix)
        &&& reskey == self.best_reskey(prefix, suffix, o.face)
    }

    /// The best key for the face `f` for the name of the resource `prefix`
    /// followed by `suffix`.
    pub open(crate) spec fn best_reskey(&self, prefix: usize, suffix: Seq<char>, f: usize) -> ResKeyView {
        ResKeyView::from_parts(
            crate::routing::keys::best_key(self.resources@, prefix as int, suffix, f).0,
            crate::routing::keys::best_key(self.resources@, prefix as int, suffix, f).1,
        )
    }

    /// The calls `out` route the data named `name` that the face `from`
    /// sent: every call hands the data on to a face that it is for; every
    /// such face gets a call; no face gets two.
    pub open(crate) spec fn data_routed(
        &self,
        from: usize,
        prefix: usize,
        suffix: Seq<char>,
        reliable: bool,
        info: Option<Seq<u8>>,
        payload: Seq<u8>,
        out: Seq<Outbound>,
    ) -> bool {
        &&& forall|k: int|
            0 <= k < out.len() ==> self.data_call_ok(
                from,
                prefix,
                suffix,
                reliable,
                info,
                payload,
                #[trigger] out[k],
            )
        &&& forall|g: usize|
            self.tells(from, g) && #[trigger] self.has_subscriber(
                g,
                self.name(prefix) + suffix,
            ) ==> outs_to(out, g)
        &&& forall|a: int, b: int|
            0 <= a < b < out.len() ==> (#[trigger] out[a]).face != (#[trigger] out[b]).face
    }
}

/// The calls that tell the face `face` of something on the resource named
/// `name`, whose part free of wildcards is `part` and is named `part_name`,
/// where `c` is what the face has declared on that part: the call of the
/// kind `kind` with the key for the face, after the call that tells the
/// face of the id that the broker gives it for the key, if it gives one.
pub open(crate) spec fn advert_calls(
    face: Face,
    c: Context,
    part: (Option<usize>, Seq<char>),
    part_name: Seq<char>,
    name: Seq<char>,
    kind: AdvertKind,
) -> Seq<CallView> {
    match new_id(face, c, part) {
        Some(rid) => seq![
            CallView::Resource { rid, reskey: ResKeyView::RName(part_name) },
            kind.spec_call(advert_key(face, c, part, name)),
        ],
        None => seq![kind.spec_call(advert_key(face, c, part, name))],
    }
}

/// Among the calls there is one on the face `g`.
pub open spec fn outs_to(out: Seq<Outbound>, g: usize) -> bool {
    exists|k: int| 0 <= k < out.len() && (#[trigger] out[k]).face == g
}

/// Among the calls there is one of the kind `kind` on the face `g`.
pub open spec fn told_to(out: Seq<Outbound>, g: usize, kind: AdvertKind) -> bool {
    exists|k: int|
        0 <= k < out.len() && (#[trigger] out[k]).face == g && kind.key_of(out[k].call@) is Some
}

/// No face gets two calls of the kind `kind`.
pub open spec fn told_once(out: Seq<Outbound>, kind: AdvertKind) -> bool {
    forall|a: int, b: int|
        0 <= a < b < out.len() && kind.key_of((#[trigger] out[a]).call@) is Some && kind.key_of(
            (#[trigger] out[b]).call@,
        ) is Some ==> out[a].face != out[b].face
}

impl Tables {
    /// The tables `self` are the tables `pre` after faces were told of
    /// something: nothing changed but the ids of faces, of which there may
    /// be more, given by the broker.
    pub open(crate) spec fn spread(&self, pre: Tables) -> bool {
        &&& self.spec_len() == pre.spec_len()
        &&& self.routes@.len() == pre.routes@.len()
        &&& self.face_seq().len() == pre.face_seq().len()
        &&& forall|g: int|
            0 <= g < pre.face_seq().len() ==> (#[trigger] self.face_seq()[g]).id
                == pre.face_seq()[g].id && self.face_seq()[g].whatami == pre.face_seq()[g].whatami
                && self.face_seq()[g].attached == pre.face_seq()[g].attached
        &&& forall|g: usize, r: ResourceId|
            pre.has_face(g) && (#[trigger] pre.bound(g, r)) is Some ==> self.bound(g, r)
                == pre.bound(g, r)
        &&& forall|m: int|
            0 <= m < pre.spec_len() ==> (#[trigger] self.nodes()[m]).alive == pre.nodes()[m].alive
                && self.nodes()[m].name@ == pre.nodes()[m].name@ && self.nodes()[m].parent
                == pre.nodes()[m].parent && self.nodes()[m].suffix@ == pre.nodes()[m].suffix@
                && self.nodes()[m].children@ == pre.nodes()[m].children@
        &&& forall|m: int, h: usize|
            0 <= m < pre.spec_len() ==> (#[trigger] ctx_of(self.nodes()[m].contexts@, h)).subs
                == ctx_of(pre.nodes()[m].contexts@, h).subs && ctx_of(
                self.nodes()[m].contexts@,
                h,
            ).qabl == ctx_of(pre.nodes()[m].contexts@, h).qabl
    }

    /// Telling one more face goes on with what telling the others did.
    pub(crate) proof fn lemma_spread_step(a: Tables, b: Tables, c: Tables, g: usize)
        requires
            b.spread(a),
            c.advertised(b, g),
            b.has_face(g),
        ensures
            c.spread(a),
    {
        assert forall|h: int| 0 <= h < a.face_seq().len() implies (#[trigger] c.face_seq()[h]).id
            == a.face_seq()[h].id && c.face_seq()[h].whatami == a.face_seq()[h].whatami
            && c.face_seq()[h].attached == a.face_seq()[h].attached by {
            assert(b.face_seq()[h].id == a.face_seq()[h].id);
        }
        assert forall|h: usize, r: ResourceId|
            a.has_face(h) && (#[trigger] a.bound(h, r)) is Some implies c.bound(h, r) == a.bound(
            h,
            r,
        ) by {
            assert(b.bound(h, r) == a.bound(h, r));
            if h != g {
                assert(c.face_seq()[h as int] == b.face_seq()[h as int]);
            } else {
                assert(c.bound(g, r) == b.bound(g, r));
            }
        }
        assert forall|m: int| 0 <= m < a.spec_len() implies (#[trigger] c.nodes()[m]).alive
            == a.nodes()[m].alive && c.nodes()[m].name@ == a.nodes()[m].name@ && c.nodes()[m].parent
            == a.nodes()[m].parent && c.nodes()[m].suffix@ == a.nodes()[m].suffix@
            && c.nodes()[m].children@ == a.nodes()[m].children@ by {
            assert(b.nodes()[m].alive == a.nodes()[m].alive);
        }
        assert forall|m: int, h: usize| 0 <= m < a.spec_len() implies (#[trigger] ctx_of(
            c.nodes()[m].contexts@,
            h,
        )).subs == ctx_of(a.nodes()[m].contexts@, h).subs && ctx_of(c.nodes()[m].contexts@, h).qabl
            == ctx_of(a.nodes()[m].contexts@, h).qabl by {
            assert(ctx_of(b.nodes()[m].contexts@, h).subs == ctx_of(a.nodes()[m].contexts@, h).subs);
        }
    }

    /// A call that was right for its face stays right while another face is told.
    pub(crate) proof fn lemma_advert_frame(
        a: Tables,
        b: Tables,
        g: usize,
        o: Outbound,
        name: Seq<char>,
        kind: AdvertKind,
    )
        requires
            a.consistent(),
            b.advertised(a, g),
            a.has_face(o.face),
            a.advert_ok(o, name, kind),
        ensures
            b.advert_ok(o, name, kind),
    {
        let fs = a.face_seq();
        assert forall|r: ResourceId| (#[trigger] a.mapping(o.face, r)) is Some implies b.mapping(
            o.face,
            r,
        ) == a.mapping(o.face, r) && a.is_live(a.mapping(o.face, r)->0) by {
            if o.face != g {
                assert(b.face_seq()[o.face as int] == a.face_seq()[o.face as int]);
            }
            if r != NO_RESOURCE_ID {
                let ms = fs[o.face as int].mappings@;
                lemma_mapping_pos(ms, r);
                let i = mapping_pos(ms, r)->0;
                assert(crate::routing::tables::mapping_ok(
                    fs[o.face as int].mappings@[i],
                    o.face as int,
                    a.nodes(),
                ));
            }
        }
        match o.call {
            Call::Resource { rid, reskey } => {
                assert(a.mapping(o.face, rid) is Some);
            },
            other => {
                let key = kind.key_of(other@)->0;
                assert(a.mapping(o.face, key.rid()) is Some);
            },
        }
    }

    /// The id that the broker gives the face `g` when it tells it what the
    /// face `from` declares of something on a resource whose part free of
    /// wildcards is `part`: none where `g` is not told, has an id for that
    /// part, or no id is free.
    pub open(crate) spec fn id_for(
        &self,
        from: usize,
        g: usize,
        part: (Option<usize>, Seq<char>),
    ) -> Option<ResourceId> {
        if self.tells(from, g) {
            new_id(self.face_seq()[g as int], self.part_ctx(g, part.0), part)
        } else {
            None
        }
    }

    /// The calls that the face `g` gets when the face `from` declares
    /// something of the kind `kind` on the resource named `name`, whose
    /// part free of wildcards is `part` and is named `part_name`: none
    /// where `g` is not told.
    pub open(crate) spec fn calls_for(
        &self,
        from: usize,
        g: usize,
        part: (Option<usize>, Seq<char>),
        part_name: Seq<char>,
        name: Seq<char>,
        kind: AdvertKind,
    ) -> Seq<CallView> {
        if self.tells(from, g) {
            advert_calls(
                self.face_seq()[g as int],
                self.part_ctx(g, part.0),
                part,
                part_name,
                name,
                kind,
            )
        } else {
            Seq::empty()
        }
    }

    /// The ids in the tables `self` are those of the tables `pre` and those
    /// that the broker gave to the faces before `upto` when it told them
    /// what the face `from` declared: each of these ids is given to the
    /// part `part` and stands in the context of its face there.
    pub open(crate) spec fn gave_all(
        &self,
        pre: Tables,
        from: usize,
        part: (Option<usize>, Seq<char>),
        upto: int,
    ) -> bool {
        &&& forall|g: usize, r: ResourceId|
            g < pre.face_seq().len() ==> #[trigger] self.bound(g, r) == (if g < upto && pre.id_for(
                from,
                g,
                part,
            ) == Some(r) {
                part.0
            } else {
                pre.bound(g, r)
            })
        &&& forall|g: usize|
            g < pre.face_seq().len() ==> #[trigger] self.first_local_id(g) == (if g < upto
                && pre.id_for(from, g, part) is Some {
                after_id(pre.id_for(from, g, part)->0)
            } else {
                pre.first_local_id(g)
            })
        &&& forall|m: usize, h: usize|
            m < pre.spec_len() ==> (#[trigger] self.context(m, h)).remote_rid == pre.context(
                m,
                h,
            ).remote_rid && self.context(m, h).local_rid == (if h < upto && part.0 == Some(m)
                && pre.id_for(from, h, part) is Some {
                pre.id_for(from, h, part)
            } else {
                pre.context(m, h).local_rid
            })
    }

    /// The ids after one more face was told.
    pub(crate) proof fn lemma_gave_step(
        pre: Tables,
        before: Tables,
        now: Tables,
        from: usize,
        part: (Option<usize>, Seq<char>),
        g: usize,
    )
        requires
            before.gave_all(pre, from, part, g as int),
            before.spec_len() == pre.spec_len(),
            before.face_seq().len() == pre.face_seq().len(),
            now.advertised(before, g),
            now.gave(before, g, part.0, pre.id_for(from, g, part)),
            pre.tells(from, g),
        ensures
            now.gave_all(pre, from, part, g + 1),
    {
        assert forall|h: usize, r: ResourceId|
            h < pre.face_seq().len() implies #[trigger] now.bound(h, r) == (if h < g + 1
            && pre.id_for(from, h, part) == Some(r) {
            part.0
        } else {
            pre.bound(h, r)
        }) by {
            if h != g {
                assert(now.face_seq()[h as int] == before.face_seq()[h as int]);
                assert(now.bound(h, r) == before.bound(h, r));
            } else {
                assert(before.bound(g, r) == pre.bound(g, r));
            }
        }
        assert forall|h: usize| h < pre.face_seq().len() implies #[trigger] now.first_local_id(h)
            == (if h < g + 1 && pre.id_for(from, h, part) is Some {
            after_id(pre.id_for(from, h, part)->0)
        } else {
            pre.first_local_id(h)
        }) by {
            if h != g {
                assert(now.face_seq()[h as int] == before.face_seq()[h as int]);
                assert(now.first_local_id(h) == before.first_local_id(h));
            } else {
                assert(before.first_local_id(g) == pre.first_local_id(g));
            }
        }
        assert forall|m: usize, h: usize| m < pre.spec_len() implies (#[trigger] now.context(
            m,
            h,
        )).remote_rid == pre.context(m, h).remote_rid && now.context(m, h).local_rid == (if h < g
            + 1 && part.0 == Some(m) && pre.id_for(from, h, part) is Some {
            pre.id_for(from, h, part)
        } else {
            pre.context(m, h).local_rid
        }) by {
            assert(before.context(m, h).remote_rid == pre.context(m, h).remote_rid);
        }
    }

    /// Tells every face that is to know what the face `from` declares of
    /// something on the resource `n`: the call made by `kind`, once for each
    /// of these faces, with a key that the face can read; before it, where
    /// the broker gives the face a new id for that key, the call that tells
    /// the face of the id.
    pub(crate) fn advertise(&mut self, from: usize, n: usize, kind: AdvertKind) -> (out: Vec<
        Outbound,
    >)
        requires
            old(self).consistent(),
            old(self).all_held(),
            old(self).has_face(from),
            old(self).is_live(n),
        ensures
            final(self).consistent(),
            final(self).all_held(),
            final(self).spread(*old(self)),
            forall|i: int|
                0 <= i < out@.len() ==> old(self).tells(from, (#[trigger] out@[i]).face) && final(self).advert_ok(out@[i], old(self).name(n), kind),
            forall|g: usize| #[trigger] old(self).tells(from, g) ==> told_to(out@, g, kind),
            told_once(out@, kind),
            final(self).gave_all(
                *old(self),
                from,
                free_part(old(self).nodes(), n as int),
                old(self).face_seq().len() as int,
            ),
            forall|g: usize| #[trigger]
                calls_to(out@, g) == old(self).calls_for(
                    from,
                    g,
                    free_part(old(self).nodes(), n as int),
                    old(self).part_name(free_part(old(self).nodes(), n as int).0),
                    old(self).name(n),
                    kind,
                ),
    {
        let (np, ws) = self.nonwild_prefix(n);
        let ghost name = self.name(n);
        let ghost part = free_part(old(self).nodes(), n as int);
        let ghost pname = old(self).part_name(np);
        let mut out: Vec<Outbound> = Vec::new();
        let role = self.faces[from].whatami;
        let nfaces = self.faces.len();
        let mut g: usize = 0;
        while g < nfaces
            invariant
                g <= nfaces,
                nfaces == old(self).face_seq().len(),
                old(self).consistent(),
                old(self).has_face(from),
                role == old(self).whatami(from),
                name == old(self).name(n),
                self.consistent(),
                self.all_held(),
                self.spread(*old(self)),
                self.is_live(n),
                match np {
                    Some(q) => q != 0 && self.is_live(q) && self.name(q) + ws@ == name,
                    None => ws@ == name,
                },
                forall|i: int|
                    0 <= i < out@.len() ==> (#[trigger] out@[i]).face < g && old(self).tells(
                        from,
                        out@[i].face,
                    ) && self.advert_ok(out@[i], name, kind),
                forall|h: usize|
                    h < g && #[trigger] old(self).tells(from, h) ==> told_to(out@, h, kind),
                told_once(out@, kind),
                part == (np, ws@),
                pname == old(self).part_name(np),
                np matches Some(q) ==> q < old(self).spec_len(),
                self.gave_all(*old(self), from, part, g as int),
                forall|h: usize|
                    g <= h < nfaces ==> #[trigger] self.face_seq()[h as int] == old(
                        self,
                    ).face_seq()[h as int],
                forall|h: usize| #[trigger]
                    calls_to(out@, h) == (if h < g {
                        old(self).calls_for(from, h, part, pname, name, kind)
                    } else {
                        Seq::empty()
                    }),
            decreases nfaces - g,
        {
            if g != from && self.faces[g].attached && relays(role, self.faces[g].whatami) {
                let ghost before = *self;
                let ghost start = out@;
                self.advertise_to(g, n, np, ws.as_str(), kind, &mut out);
                proof {
                    let pre = *old(self);
                    let face = pre.face_seq()[g as int];
                    assert(before.face_seq()[g as int] == face);
                    assert(before.name(n) == name);
                    assert(before.part_name(np) == pname);
                    let c0 = pre.part_ctx(g, np);
                    let c1 = before.part_ctx(g, np);
                    assert(known_rid(c1) == known_rid(c0)) by {
                        if let Some(q) = np {
                            assert(before.context(q, g).remote_rid == pre.context(q, g).remote_rid);
                        }
                    }
                    assert(pre.tells(from, g));
                    let id = pre.id_for(from, g, part);
                    assert(id == new_id(before.face_seq()[g as int], c1, part));
                    assert(advert_calls(face, c1, part, pname, name, kind) == advert_calls(
                        face,
                        c0,
                        part,
                        pname,
                        name,
                        kind,
                    ));
                    assert(calls_to(out@, g) =~= pre.calls_for(from, g, part, pname, name, kind));
                    Self::lemma_gave_step(pre, before, *self, from, part, g);
                    assert forall|h: usize| g + 1 <= h < nfaces implies #[trigger] self.face_seq()[h as int]
                        == pre.face_seq()[h as int] by {
                        assert(self.face_seq()[h as int] == before.face_seq()[h as int]);
                    }
                    Self::lemma_spread_step(*old(self), before, *self, g);
                    assert forall|i: int| 0 <= i < out@.len() implies (#[trigger] out@[i]).face < g
                        + 1 && old(self).tells(from, out@[i].face) && self.advert_ok(
                        out@[i],
                        name,
                        kind,
                    ) by {
                        if i < start.len() {
                            assert(out@[i] == start[i]);
                            Self::lemma_advert_frame(before, *self, g, out@[i], name, kind);
                        }
                    }
                    assert forall|h: usize|
                        h < g + 1 && #[trigger] old(self).tells(from, h) implies told_to(
                        out@,
                        h,
                        kind,
                    ) by {
                        if h < g {
                            let k = choose|k: int|
                                0 <= k < start.len() && (#[trigger] start[k]).face == h
                                    && kind.key_of(start[k].call@) is Some;
                            assert(out@[k] == start[k]);
                        } else {
                            let k = out@.len() - 1;
                            assert(out@[k].face == g);
                        }
                    }
                    assert forall|a: int, b: int|
                        0 <= a < b < out@.len() && kind.key_of((#[trigger] out@[a]).call@) is Some
                            && kind.key_of((#[trigger] out@[b]).call@) is Some implies out@[a].face
                        != out@[b].face by {
                        if b < start.len() {
                            assert(out@[a] == start[a]);
                            assert(out@[b] == start[b]);
                        } else if a < start.len() {
                            assert(out@[a] == start[a]);
                        }
                    }
                }
            }
            g = g + 1;
        }
        out
    }
}

/// The route of data: the faces that it goes to, each with its key.
pub type DataRoute = Vec<RouteEntry>;

/// Declares a subscription of the face `face` to the resource with the name
/// of the id `prefixid` followed by `suffix`. The result is what to tell the
/// other faces.
pub fn declare_subscription(
    tables: &mut Tables,
    face: usize,
    prefixid: ResourceId,
    suffix: &str,
    sub_info: &SubInfo,
) -> (r: Result<Vec<Outbound>, RoutingError>)
    requires
        old(tables).wf(),
    ensures
        final(tables).wf(),
        r is Ok == (old(tables).has_face(face) && old(tables).mapping(face, prefixid) is Some),
        final(tables).declare_done(
            *old(tables),
            face,
            prefixid,
            suffix@,
            crate::routing::declare::Interest::Subscription(*sub_info),
            r,
        ),
{
    tables.declare_subscription(face, prefixid, suffix, sub_info)
}

/// Ends the subscription of the face `face` to the resource with the name of
/// the id `prefixid` followed by `suffix`. The result is what to tell the
/// other faces.
pub fn undeclare_subscription(
    tables: &mut Tables,
    face: usize,
    prefixid: ResourceId,
    suffix: &str,
) -> (r: Result<Vec<Outbound>, RoutingError>)
    requires
        old(tables).wf(),
    ensures
        final(tables).wf(),
        r is Ok == (old(tables).has_face(face) && old(tables).mapping(face, prefixid) is Some),
        final(tables).undeclare_done(
            *old(tables),
            face,
            prefixid,
            suffix@,
            crate::routing::api::any_subscription(),
            r,
        ),
{
    tables.undeclare_subscription(face, prefixid, suffix)
}

/// The route for data that the face `face` sends with the key made of `rid`
/// and `suffix`.
pub fn route_data_to_map(tables: &Tables, face: usize, rid: ResourceId, suffix: &str) -> (r: Option<
    DataRoute,
>)
    requires
        tables.wf(),
    ensures
        r is Some == (tables.has_face(face) && tables.mapping(face, rid) is Some),
        r matches Some(route) ==> tables.is_route(
            tables.name(tables.mapping(face, rid)->0) + suffix@,
            route@,
        ) && tables.has_best_keys(route@, tables.mapping(face, rid)->0, suffix@),
{
    tables.route_data_to_map(face, rid, suffix)
}

/// Routes data that the face `face` sends with the key made of `rid` and
/// `suffix`: the calls to make on the faces that the data is for.
pub fn route_data(
    tables: &Tables,
    face: usize,
    rid: ResourceId,
    suffix: &str,
    reliable: bool,
    info: &Option<Vec<u8>>,
    payload: &Vec<u8>,
) -> (r: Result<Vec<Outbound>, RoutingError>)
    requires
        tables.wf(),
    ensures
        match r {
            Err(RoutingError::ClosedSession) => !tables.has_face(face),
            Err(RoutingError::UnknownRid) => tables.has_face(face) && tables.mapping(face, rid)
                is None,
            Err(RoutingError::DuplicateRid) => false,
            Ok(out) => tables.has_face(face) && tables.mapping(face, rid) is Some
                && tables.data_routed(
                face,
                tables.mapping(face, rid)->0,
                suffix@,
                reliable,
                crate::types::opt_bytes_view(*info),
                payload@,
                out@,
            ),
        },
{
    tables.route_data(face, rid, suffix, reliable, info, payload)
}

} // verus!
