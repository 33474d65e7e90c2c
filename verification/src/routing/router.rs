//! The router: the tables, and the queries that wait for their answers.
//!
//! A query goes to every face that can answer it, and the router remembers
//! who asked and who was asked. Answers go back to the face that asked. The
//! query is over when every face that was asked has said that it is done, or
//! has gone: then the face that asked is told so, and the query is forgotten.
//! It is forgotten too when the face that asked goes.

use vstd::prelude::*;
use crate::proto::primitives::{Call, CallView, Reply, ReplyView};
use crate::routing::clean::remove_value;
use crate::routing::outbound::{Outbound, RoutingError};
use crate::routing::pubsub::outs_to;
use crate::routing::queries::{Question, QuestionView};
use crate::routing::tables::Tables;
use crate::types::{ResKey, ResKeyView, WhatAmI, ZInt};

verus! {

/// A query that waits for its answers.
#[derive(Clone, Debug, PartialEq, Eq)]
pub struct Pending {
    /// The id of the query.
    pub qid: ZInt,
    /// The face that asked.
    pub origin: usize,
    /// The faces that were asked and have not said that they are done.
    pub asked: Vec<usize>,
}

/// What a [`Pending`] holds.
pub struct PendingView {
    pub qid: ZInt,
    pub origin: usize,
    pub asked: Set<usize>,
}

impl View for Pending {
    type V = PendingView;

    open spec fn view(&self) -> PendingView {
        PendingView { qid: self.qid, origin: self.origin, asked: self.asked@.to_set() }
    }
}

/// What a list of waiting queries holds.
pub open spec fn views(ps: Seq<Pending>) -> Seq<PendingView> {
    Seq::new(ps.len(), |i: int| ps[i]@)
}

/// The query at `i` has the id `qid` and waits for the face `g`.
pub open spec fn waits(ps: Seq<PendingView>, i: int, g: usize, qid: ZInt) -> bool {
    0 <= i < ps.len() && ps[i].qid == qid && ps[i].asked.contains(g)
}

/// The query at `i` is the first with the id `qid` that waits for the face `g`.
pub open spec fn first_waiting(ps: Seq<PendingView>, i: int, g: usize, qid: ZInt) -> bool {
    waits(ps, i, g, qid) && forall|j: int| 0 <= j < i ==> !waits(ps, j, g, qid)
}

/// No query with the id `qid` waits for the face `g`.
pub open spec fn nobody_waits(ps: Seq<PendingView>, g: usize, qid: ZInt) -> bool {
    forall|i: int| !waits(ps, i, g, qid)
}

/// The set holds nothing but `f`.
pub open spec fn only(s: Set<usize>, f: usize) -> bool {
    forall|x: usize| s.contains(x) ==> x == f
}

/// The call `o` tells the face `origin` that the query `qid` is over.
pub open spec fn is_final(o: Outbound, origin: usize, qid: ZInt) -> bool {
    o.face == origin && o.call@ == (CallView::Reply { qid, reply: ReplyView::ReplyFinal })
}

/// The faces that the calls are for.
pub open spec fn faces_of(out: Seq<Outbound>) -> Set<usize> {
    Set::new(|g: usize| outs_to(out, g))
}

/// The waiting queries after the face `f` has gone: those that it asked are
/// forgotten, and so are those that waited for it alone; the others do not
/// wait for it any more.
pub open spec fn closed(ps: Seq<PendingView>, f: usize) -> Seq<PendingView>
    decreases ps.len(),
{
    if ps.len() == 0 {
        Seq::empty()
    } else {
        let p = ps.last();
        let rest = closed(ps.drop_last(), f);
        if p.origin == f || only(p.asked, f) {
            rest
        } else {
            rest.push(PendingView { qid: p.qid, origin: p.origin, asked: p.asked.remove(f) })
        }
    }
}

/// The queries that are over when the face `f` goes, each as the face that
/// asked and the id: those of other faces that waited for `f` alone.
pub open spec fn close_finals(ps: Seq<PendingView>, f: usize) -> Seq<(usize, ZInt)>
    decreases ps.len(),
{
    if ps.len() == 0 {
        Seq::empty()
    } else {
        let p = ps.last();
        let rest = close_finals(ps.drop_last(), f);
        if p.origin != f && only(p.asked, f) {
            rest.push((p.origin, p.qid))
        } else {
            rest
        }
    }
}

/// The calls tell, in order, each face of `to` that its query is over.
pub open spec fn finals(out: Seq<Outbound>, to: Seq<(usize, ZInt)>) -> bool {
    &&& out.len() == to.len()
    &&& forall|k: int| 0 <= k < out.len() ==> is_final(#[trigger] out[k], to[k].0, to[k].1)
}

/// Whether `x` is in `v`.
pub fn has_value(v: &Vec<usize>, x: usize) -> (r: bool)
    ensures
        r == v@.contains(x),
{
    let mut i: usize = 0;
    while i < v.len()
        invariant
            i <= v.len(),
            forall|k: int| 0 <= k < i ==> v@[k] != x,
        decreases v.len() - i,
    {
        if v[i] == x {
            return true;
        }
        i = i + 1;
    }
    false
}

/// The tables, and the queries that wait for their answers.
pub struct Router {
    tables: Tables,
    pending: Vec<Pending>,
}

/// Every waiting query was asked by an attached face and waits for at least
/// one face, and only for attached ones.
pub open(crate) spec fn pending_ok(t: Tables, ps: Seq<Pending>) -> bool {
    forall|i: int|
        0 <= i < ps.len() ==> {
            &&& t.has_face((#[trigger] ps[i]).origin)
            &&& ps[i].asked@.len() > 0
            &&& forall|k: int| 0 <= k < ps[i].asked@.len() ==> t.has_face(#[trigger] ps[i].asked@[k])
        }
}

impl Router {
    /// The tables.
    pub closed spec fn tables(&self) -> Tables {
        self.tables
    }

    /// The queries that wait for their answers, the oldest first.
    pub closed spec fn pending(&self) -> Seq<PendingView> {
        views(self.pending@)
    }

    /// The tables are well formed, and every waiting query was asked by an
    /// attached face and waits for at least one face, and only for attached
    /// ones.
    pub closed spec fn wf(&self) -> bool {
        self.tables.wf() && pending_ok(self.tables, self.pending@)
    }

    /// In a well-formed router the tables are well formed, the faces of the
    /// waiting queries are attached, and every waiting query waits for a face.
    pub proof fn lemma_wf(&self)
        requires
            self.wf(),
        ensures
            self.tables().wf(),
            forall|i: int|
                0 <= i < self.pending().len() ==> self.tables().has_face(
                    (#[trigger] self.pending()[i]).origin,
                ),
            forall|i: int, g: usize|
                0 <= i < self.pending().len() && (#[trigger] self.pending()[i]).asked.contains(g)
                    ==> #[trigger] self.tables().has_face(g),
            forall|i: int|
                0 <= i < self.pending().len() ==> !(#[trigger] self.pending()[i]).asked.is_empty(),
    {
        assert forall|i: int| 0 <= i < self.pending().len() implies !(
        #[trigger] self.pending()[i]).asked.is_empty() by {
            let a = self.pending@[i].asked@;
            assert(a.contains(a[0]));
            assert(self.pending()[i].asked.contains(a[0]));
        }
    }

    /// A router with empty tables, in which no query waits.
    pub fn new() -> (r: Router)
        ensures
            r.wf(),
            r.pending().len() == 0,
            r.tables().spec_len() == 1,
            r.tables().is_live(Tables::root()),
            r.tables().name(Tables::root()) == Seq::<char>::empty(),
            r.tables().face_seq().len() == 0,
            forall|f: usize| !r.tables().has_face(f),
    {
        Router { tables: Tables::new(), pending: Vec::new() }
    }

    /// The tables.
    pub fn get_tables(&self) -> (t: &Tables)
        ensures
            *t == self.tables(),
    {
        &self.tables
    }

    /// How many queries wait for their answers.
    pub fn pending_len(&self) -> (n: usize)
        ensures
            n == self.pending().len(),
    {
        self.pending.len()
    }
}

impl Tables {
    /// No face is there to answer a query of the face `from` for `name`.
    pub open(crate) spec fn nobody_answers(&self, from: usize, name: Seq<char>) -> bool {
        forall|g: usize| !(self.tells(from, g) && #[trigger] self.has_queryable(g, name))
    }
}

/// The faces that the calls are for, in the order of the calls.
fn faces_to_ask(out: &Vec<Outbound>) -> (r: Vec<usize>)
    ensures
        r@.len() == out@.len(),
        forall|k: int| 0 <= k < r@.len() ==> r@[k] == (#[trigger] out@[k]).face,
        r@.to_set() == faces_of(out@),
{
    let mut r: Vec<usize> = Vec::new();
    let mut i: usize = 0;
    while i < out.len()
        invariant
            i <= out@.len(),
            r@.len() == i,
            forall|k: int| 0 <= k < i ==> r@[k] == (#[trigger] out@[k]).face,
        decreases out@.len() - i,
    {
        r.push(out[i].face);
        i = i + 1;
    }
    proof {
        assert forall|g: usize| r@.to_set().contains(g) == faces_of(out@).contains(g) by {
            if r@.contains(g) {
                let k = choose|k: int| 0 <= k < r@.len() && r@[k] == g;
                assert(out@[k].face == g);
            }
            if outs_to(out@, g) {
                let k = choose|k: int| 0 <= k < out@.len() && (#[trigger] out@[k]).face == g;
                assert(r@[k] == g);
            }
        }
        assert(r@.to_set() =~= faces_of(out@));
    }
    r
}

impl Router {
    /// What [`Router::handle_call`] does with a query of the face `face`
    /// with the key `key`, where `r` is its result.
    ///
    /// The query goes on to every face that can answer it, and waits for all
    /// of them. Where there is none, the face that asked is told at once
    /// that the query is over.
    pub open spec fn query_handled(
        &self,
        pre: Router,
        face: usize,
        key: ResKeyView,
        asked: QuestionView,
        r: Result<Vec<Outbound>, RoutingError>,
    ) -> bool {
        let t = pre.tables();
        match r {
            Err(RoutingError::ClosedSession) => !t.has_face(face) && *self == pre,
            Err(RoutingError::UnknownRid) => t.has_face(face) && t.mapping(face, key.rid())
                is None && *self == pre,
            Err(RoutingError::DuplicateRid) => false,
            Ok(out) => {
                &&& self.tables() == t
                &&& t.has_face(face)
                &&& t.mapping(face, key.rid()) matches Some(p)
                &&& if t.nobody_answers(face, t.name(p) + key.suffix()) {
                    &&& self.pending() == pre.pending()
                    &&& out@.len() == 1
                    &&& is_final(out@[0], face, asked.qid)
                } else {
                    &&& t.query_routed(face, p, key.suffix(), asked, out@)
                    &&& self.pending() == pre.pending().push(
                        PendingView { qid: asked.qid, origin: face, asked: faces_of(out@) },
                    )
                }
            },
        }
    }

    /// Hands the query of the face `face` on, and remembers it.
    fn take_query(&mut self, face: usize, key: &ResKey, asked: Question) -> (r: Result<
        Vec<Outbound>,
        RoutingError,
    >)
        requires
            old(self).wf(),
        ensures
            final(self).wf(),
            final(self).query_handled(*old(self), face, key@, asked@, r),
    {
        let out = match self.tables.route_query(face, key.rid(), key.suffix(), asked) {
            Ok(out) => out,
            Err(e) => {
                return Err(e);
            },
        };
        let ghost t = self.tables;
        let ghost p = t.mapping(face, key@.rid())->0;
        let ghost name = t.name(p) + key@.suffix();
        if out.len() == 0 {
            proof {
                assert forall|g: usize| !(t.tells(face, g) && #[trigger] t.has_queryable(
                    g,
                    name,
                )) by {
                    if t.tells(face, g) && t.has_queryable(g, name) {
                        assert(outs_to(out@, g));
                    }
                }
            }
            let mut over: Vec<Outbound> = Vec::new();
            over.push(
                Outbound { face, call: Call::Reply { qid: asked.qid, reply: Reply::ReplyFinal } },
            );
            Ok(over)
        } else {
            let faces = faces_to_ask(&out);
            let ghost before = self.pending@;
            let entry = Pending { qid: asked.qid, origin: face, asked: faces };
            self.pending.push(entry);
            proof {
                assert(t.query_call_ok(face, p, key@.suffix(), asked@, out@[0]));
                assert(!t.nobody_answers(face, name));
                assert(views(self.pending@) =~= views(before).push(entry@));
                assert forall|i: int| 0 <= i < self.pending@.len() implies {
                    &&& t.has_face((#[trigger] self.pending@[i]).origin)
                    &&& self.pending@[i].asked@.len() > 0
                    &&& forall|k: int|
                        0 <= k < self.pending@[i].asked@.len() ==> t.has_face(
                            #[trigger] self.pending@[i].asked@[k],
                        )
                } by {
                    if i < before.len() {
                        assert(self.pending@[i] == before[i]);
                    } else {
                        assert forall|k: int| 0 <= k < faces@.len() implies t.has_face(
                            #[trigger] faces@[k],
                        ) by {
                            assert(t.query_call_ok(face, p, key@.suffix(), asked@, out@[k]));
                        }
                    }
                }
            }
            Ok(out)
        }
    }

    /// Attaches a participant in the role `whatami`. The result is its face
    /// and what to tell it: every subscription and every queryable of the
    /// other faces. No waiting query changes.
    pub fn declare_session(&mut self, whatami: WhatAmI) -> (r: (usize, Vec<Outbound>))
        requires
            old(self).wf(),
        ensures
            final(self).wf(),
            final(self).pending() == old(self).pending(),
            final(self).tables().attached(old(self).tables(), whatami, r),
    {
        let ghost before = self.tables;
        let r = self.tables.declare_session(whatami);
        proof {
            assert forall|i: int| 0 <= i < self.pending@.len() implies {
                &&& self.tables.has_face((#[trigger] self.pending@[i]).origin)
                &&& forall|k: int|
                    0 <= k < self.pending@[i].asked@.len() ==> self.tables.has_face(
                        #[trigger] self.pending@[i].asked@[k],
                    )
            } by {
                assert(before.has_face(self.pending@[i].origin));
                assert forall|k: int|
                    0 <= k < self.pending@[i].asked@.len() implies self.tables.has_face(
                    #[trigger] self.pending@[i].asked@[k],
                ) by {
                    assert(before.has_face(self.pending@[i].asked@[k]));
                }
            }
        }
        r
    }
}

impl Router {
    /// What an answer of the face `g` to the query at `i` did, where `out`
    /// is what to tell the face that asked.
    ///
    /// Data goes to the face that asked, under the best key for that face;
    /// so does the word that one source is done. When the face `g` says that
    /// it is done, the query waits for it no more; it is over, and the face
    /// that asked is told so, once it waits for nobody.
    pub open spec fn answered(
        &self,
        pre: Router,
        i: int,
        g: usize,
        qid: ZInt,
        reply: ReplyView,
        out: Seq<Outbound>,
    ) -> bool {
        let p = pre.pending()[i];
        match reply {
            ReplyView::ReplyFinal => if only(p.asked, g) {
                &&& self.pending() == pre.pending().remove(i)
                &&& out.len() == 1
                &&& is_final(out[0], p.origin, qid)
            } else {
                &&& self.pending() == pre.pending().update(
                    i,
                    PendingView { qid: p.qid, origin: p.origin, asked: p.asked.remove(g) },
                )
                &&& out.len() == 0
            },
            ReplyView::SourceFinal { source, replier_id } => {
                &&& self.pending() == pre.pending()
                &&& out.len() == 1
                &&& out[0].face == p.origin
                &&& out[0].call@ == (CallView::Reply { qid, reply })
            },
            ReplyView::ReplyData { source, replier_id, reskey, info, payload } => {
                &&& self.pending() == pre.pending()
                &&& pre.tables().mapping(g, reskey.rid()) matches Some(n)
                &&& out.len() == 1
                &&& out[0].face == p.origin
                &&& out[0].call@ == (CallView::Reply {
                    qid,
                    reply: ReplyView::ReplyData {
                        source,
                        replier_id,
                        reskey: pre.tables().best_reskey(n, reskey.suffix(), p.origin),
                        info,
                        payload,
                    },
                })
            },
        }
    }

    /// The answer is data under a key whose id the face `g` has no resource for.
    pub open spec fn unknown_key(&self, g: usize, reply: ReplyView) -> bool {
        reply matches ReplyView::ReplyData { reskey, .. } && self.tables().mapping(g, reskey.rid())
            is None
    }

    /// What [`Router::handle_call`] does with the answer `reply` of the face
    /// `face` to the query `qid`, where `r` is its result.
    ///
    /// The answer is for the first waiting query with that id that waits
    /// for the face; where there is none, nothing happens.
    pub open spec fn reply_handled(
        &self,
        pre: Router,
        face: usize,
        qid: ZInt,
        reply: ReplyView,
        r: Result<Vec<Outbound>, RoutingError>,
    ) -> bool {
        &&& self.tables() == pre.tables()
        &&& match r {
            Err(RoutingError::ClosedSession) => !pre.tables().has_face(face) && *self == pre,
            Err(RoutingError::UnknownRid) => pre.tables().has_face(face) && !nobody_waits(
                pre.pending(),
                face,
                qid,
            ) && pre.unknown_key(face, reply) && *self == pre,
            Err(RoutingError::DuplicateRid) => false,
            Ok(out) => {
                &&& pre.tables().has_face(face)
                &&& nobody_waits(pre.pending(), face, qid) ==> out@.len() == 0 && self.pending()
                    == pre.pending()
                &&& forall|i: int| #[trigger]
                    first_waiting(pre.pending(), i, face, qid) ==> self.answered(
                        pre,
                        i,
                        face,
                        qid,
                        reply,
                        out@,
                    )
            },
        }
    }

    /// The first waiting query with the id `qid` that waits for the face `g`.
    fn find_waiting(&self, g: usize, qid: ZInt) -> (r: Option<usize>)
        ensures
            match r {
                None => nobody_waits(self.pending(), g, qid),
                Some(i) => first_waiting(self.pending(), i as int, g, qid),
            },
    {
        let mut i: usize = 0;
        while i < self.pending.len()
            invariant
                i <= self.pending@.len(),
                forall|j: int| 0 <= j < i ==> !waits(self.pending(), j, g, qid),
            decreases self.pending@.len() - i,
        {
            if self.pending[i].qid == qid && has_value(&self.pending[i].asked, g) {
                return Some(i);
            }
            i = i + 1;
        }
        None
    }

    /// Hands the answer of the face `face` to the query `qid` back to the
    /// face that asked.
    fn take_reply(&mut self, face: usize, qid: ZInt, reply: Reply) -> (r: Result<
        Vec<Outbound>,
        RoutingError,
    >)
        requires
            old(self).wf(),
        ensures
            final(self).wf(),
            final(self).reply_handled(*old(self), face, qid, reply@, r),
    {
        if !self.tables.is_attached(face) {
            return Err(RoutingError::ClosedSession);
        }
        let i = match self.find_waiting(face, qid) {
            Some(i) => i,
            None => {
                return Ok(Vec::new());
            },
        };
        let ghost ps = self.pending();
        let ghost before = self.pending@;
        assert(forall|j: int| #[trigger] first_waiting(ps, j, face, qid) ==> j == i);
        let origin = self.pending[i].origin;
        let mut out: Vec<Outbound> = Vec::new();
        match reply {
            Reply::ReplyFinal => {
                remove_value(&mut self.pending[i].asked, face);
                let ghost left = self.pending@[i as int].asked@;
                proof {
                    assert(left.to_set() =~= ps[i as int].asked.remove(face));
                    if left.len() > 0 {
                        assert(left.contains(left[0]));
                        assert(ps[i as int].asked.contains(left[0]) && left[0] != face);
                    } else {
                        assert forall|x: usize| ps[i as int].asked.contains(x) implies x
                            == face by {
                            if x != face {
                                assert(left.contains(x));
                            }
                        }
                    }
                    assert forall|k: int| 0 <= k < left.len() implies self.tables.has_face(
                        #[trigger] left[k],
                    ) by {
                        assert(left.contains(left[k]));
                        assert(before[i as int].asked@.contains(left[k]));
                    }
                }
                if self.pending[i].asked.len() == 0 {
                    let _ = self.pending.remove(i);
                    out.push(
                        Outbound { face: origin, call: Call::Reply { qid, reply: Reply::ReplyFinal } },
                    );
                    proof {
                        assert(views(self.pending@) =~= ps.remove(i as int));
                    }
                } else {
                    proof {
                        assert(views(self.pending@) =~= ps.update(
                            i as int,
                            PendingView {
                                qid: ps[i as int].qid,
                                origin: ps[i as int].origin,
                                asked: ps[i as int].asked.remove(face),
                            },
                        ));
                    }
                }
            },
            Reply::SourceFinal { source, replier_id } => {
                out.push(
                    Outbound {
                        face: origin,
                        call: Call::Reply { qid, reply: Reply::SourceFinal { source, replier_id } },
                    },
                );
            },
            Reply::ReplyData { source, replier_id, reskey, info, payload } => {
                let n = match self.tables.get_mapping(face, reskey.rid()) {
                    Some(n) => n,
                    None => {
                        return Err(RoutingError::UnknownRid);
                    },
                };
                let (rid, suffix) = self.tables.get_best_key(n, reskey.suffix(), origin);
                out.push(
                    Outbound {
                        face: origin,
                        call: Call::Reply {
                            qid,
                            reply: Reply::ReplyData {
                                source,
                                replier_id,
                                reskey: ResKey::from_parts(rid, suffix),
                                info,
                                payload,
                            },
                        },
                    },
                );
            },
        }
        Ok(out)
    }
}

/// A copy of the list.
fn copy_faces(v: &Vec<usize>) -> (r: Vec<usize>)
    ensures
        r@ == v@,
{
    let mut r: Vec<usize> = Vec::new();
    let mut i: usize = 0;
    while i < v.len()
        invariant
            i <= v@.len(),
            r@ == v@.take(i as int),
        decreases v@.len() - i,
    {
        r.push(v[i]);
        proof {
            assert(v@.take(i + 1) =~= v@.take(i as int).push(v@[i as int]));
        }
        i = i + 1;
    }
    proof {
        assert(v@.take(i as int) =~= v@);
    }
    r
}

impl Router {
    /// What [`Router::handle_call`] does when the face `face` closes, where
    /// `r` is its result.
    ///
    /// The face is detached from the tables. The queries that it asked are
    /// forgotten. The queries of other faces wait for it no more: those
    /// that waited for it alone are over, and the faces that asked them are
    /// told so.
    pub open spec fn close_handled(
        &self,
        pre: Router,
        face: usize,
        r: Result<Vec<Outbound>, RoutingError>,
    ) -> bool {
        match r {
            Err(e) => e == RoutingError::ClosedSession && !pre.tables().has_face(face) && *self
                == pre,
            Ok(out) => self.closed_by(pre, face, out@),
        }
    }

    /// The router `self` is the router `pre` after the session of the
    /// attached face `face` has ended, and `out` tells the faces whose
    /// queries are over by that.
    pub open spec fn closed_by(&self, pre: Router, face: usize, out: Seq<Outbound>) -> bool {
        &&& pre.tables().has_face(face)
        &&& !self.tables().has_face(face)
        &&& self.tables().detached(pre.tables(), face)
        &&& self.pending() == closed(pre.pending(), face)
        &&& finals(out, close_finals(pre.pending(), face))
    }

    /// Detaches the face `face`, and settles the queries that it asked or
    /// was asked.
    fn close(&mut self, face: usize) -> (r: Result<Vec<Outbound>, RoutingError>)
        requires
            old(self).wf(),
        ensures
            final(self).wf(),
            final(self).close_handled(*old(self), face, r),
    {
        let ghost t = self.tables;
        match self.tables.undeclare_session(face) {
            Ok(()) => {},
            Err(e) => {
                return Err(e);
            },
        }
        let ghost ps = old(self).pending();
        let ghost before = self.pending@;
        let mut kept: Vec<Pending> = Vec::new();
        let mut out: Vec<Outbound> = Vec::new();
        let mut i: usize = 0;
        assert(ps.take(0) =~= Seq::empty());
        while i < self.pending.len()
            invariant
                i <= before.len(),
                self.pending@ == before,
                ps == views(before),
                pending_ok(t, before),
                views(kept@) == closed(ps.take(i as int), face),
                finals(out@, close_finals(ps.take(i as int), face)),
                forall|k: int|
                    0 <= k < kept@.len() ==> {
                        &&& t.has_face((#[trigger] kept@[k]).origin)
                        &&& kept@[k].origin != face
                        &&& kept@[k].asked@.len() > 0
                        &&& forall|j: int|
                            0 <= j < kept@[k].asked@.len() ==> t.has_face(
                                #[trigger] kept@[k].asked@[j],
                            ) && kept@[k].asked@[j] != face
                    },
            decreases before.len() - i,
        {
            let p = &self.pending[i];
            let mut asked = copy_faces(&p.asked);
            remove_value(&mut asked, face);
            let ghost kept_before = kept@;
            let ghost out_before = out@;
            proof {
                assert(ps.take(i + 1).drop_last() =~= ps.take(i as int));
                assert(ps.take(i + 1).last() == ps[i as int]);
                assert(asked@.to_set() =~= ps[i as int].asked.remove(face));
                if asked@.len() > 0 {
                    assert(asked@.contains(asked@[0]));
                    assert(ps[i as int].asked.contains(asked@[0]) && asked@[0] != face);
                } else {
                    assert forall|x: usize| ps[i as int].asked.contains(x) implies x == face by {
                        if x != face {
                            assert(asked@.contains(x));
                        }
                    }
                }
                assert forall|j: int| 0 <= j < asked@.len() implies t.has_face(
                    #[trigger] asked@[j],
                ) && asked@[j] != face by {
                    assert(asked@.contains(asked@[j]));
                    assert(before[i as int].asked@.contains(asked@[j]));
                }
            }
            if p.origin != face {
                if asked.len() == 0 {
                    out.push(
                        Outbound {
                            face: p.origin,
                            call: Call::Reply { qid: p.qid, reply: Reply::ReplyFinal },
                        },
                    );
                    proof {
                        let to = close_finals(ps.take(i + 1), face);
                        assert(to == close_finals(ps.take(i as int), face).push(
                            (p.origin, p.qid),
                        ));
                        assert forall|k: int| 0 <= k < out@.len() implies is_final(
                            #[trigger] out@[k],
                            to[k].0,
                            to[k].1,
                        ) by {
                            if k < out_before.len() {
                                assert(out@[k] == out_before[k]);
                            }
                        }
                    }
                } else {
                    let e = Pending { qid: p.qid, origin: p.origin, asked };
                    kept.push(e);
                    proof {
                        assert(views(kept@) =~= views(kept_before).push(e@));
                        assert forall|k: int| 0 <= k < kept@.len() implies {
                            &&& t.has_face((#[trigger] kept@[k]).origin)
                            &&& kept@[k].origin != face
                            &&& kept@[k].asked@.len() > 0
                            &&& forall|j: int|
                                0 <= j < kept@[k].asked@.len() ==> t.has_face(
                                    #[trigger] kept@[k].asked@[j],
                                ) && kept@[k].asked@[j] != face
                        } by {
                            if k < kept_before.len() {
                                assert(kept@[k] == kept_before[k]);
                            }
                        }
                    }
                }
            }
            i = i + 1;
        }
        proof {
            assert(ps.take(i as int) =~= ps);
        }
        self.pending = kept;
        Ok(out)
    }

    /// What [`Router::handle_call`] does with the call `call` of the face
    /// `face`, where `r` is its result: queries, their answers and the end
    /// of a session concern the waiting queries; every other call is for
    /// the tables alone. A call that is refused changes nothing.
    pub open spec fn handled(
        &self,
        pre: Router,
        face: usize,
        call: CallView,
        r: Result<Vec<Outbound>, RoutingError>,
    ) -> bool {
        &&& r is Err ==> *self == pre
        &&& match call {
            CallView::Query { reskey, predicate, qid, target, consolidation } => self.query_handled(
                pre,
                face,
                reskey,
                QuestionView { predicate, qid, target, consolidation },
                r,
            ),
            CallView::Reply { qid, reply } => self.reply_handled(pre, face, qid, reply, r),
            CallView::Close => self.close_handled(pre, face, r),
            _ => self.pending() == pre.pending() && self.tables().handled(
                pre.tables(),
                face,
                call,
                r,
            ),
        }
    }

    /// Does what the call `call`, which came in from the face `face`, asks
    /// of the router. The result is what to ask of other faces in return.
    pub fn handle_call(&mut self, face: usize, call: Call) -> (r: Result<Vec<Outbound>, RoutingError>)
        requires
            old(self).wf(),
        ensures
            final(self).wf(),
            final(self).handled(*old(self), face, call@, r),
    {
        match call {
            Call::Query { reskey, predicate, qid, target, consolidation } => {
                let asked = Question { predicate: predicate.as_str(), qid, target, consolidation };
                self.take_query(face, &reskey, asked)
            },
            Call::Reply { qid, reply } => self.take_reply(face, qid, reply),
            Call::Close => self.close(face),
            _ => {
                let ghost t = self.tables;
                let r = self.tables.handle_call(face, call);
                proof {
                    self.tables.lemma_handled_keeps_faces(t, face, call@, r);
                    assert forall|i: int| 0 <= i < self.pending@.len() implies {
                        &&& self.tables.has_face((#[trigger] self.pending@[i]).origin)
                        &&& forall|k: int|
                            0 <= k < self.pending@[i].asked@.len() ==> self.tables.has_face(
                                #[trigger] self.pending@[i].asked@[k],
                            )
                    } by {
                        assert(t.has_face(self.pending@[i].origin));
                        assert forall|k: int|
                            0 <= k < self.pending@[i].asked@.len() implies self.tables.has_face(
                            #[trigger] self.pending@[i].asked@[k],
                        ) by {
                            assert(t.has_face(self.pending@[i].asked@[k]));
                        }
                    }
                }
                r
            },
        }
    }
}

/// What the router did with a call.
#[derive(Debug, PartialEq, Eq)]
pub struct Served {
    /// What to ask of faces in return.
    pub out: Vec<Outbound>,
    /// Why the call was refused, if it was.
    pub refused: Option<RoutingError>,
}

impl Router {
    /// What [`Router::serve`] does with the call `call` of the face `face`,
    /// where `r` is its result.
    ///
    /// A call that is not refused is handled. One that is refused because of
    /// an id ends the session of its face, whose ids do not agree with those
    /// of the broker any more: the face is detached as if it had closed. One
    /// that is refused because its face is not attached changes nothing.
    pub open spec fn served(&self, pre: Router, face: usize, call: CallView, r: Served) -> bool {
        match r.refused {
            None => self.handled(pre, face, call, Ok(r.out)),
            Some(e) => pre.handled(pre, face, call, Err(e)) && if e.spec_ends_session() {
                self.closed_by(pre, face, r.out@)
            } else {
                *self == pre && r.out@.len() == 0
            },
        }
    }

    /// Serves the call `call`, which came in from the face `face`: does
    /// what it asks, or ends the session of the face where the call is
    /// refused because of an id. The result says what to ask of faces in
    /// return, and why the call was refused if it was: the face is then to
    /// be sent a CLOSE message with the reason of the refusal.
    pub fn serve(&mut self, face: usize, call: Call) -> (r: Served)
        requires
            old(self).wf(),
        ensures
            final(self).wf(),
            final(self).served(*old(self), face, call@, r),
    {
        match self.handle_call(face, call) {
            Ok(out) => Served { out, refused: None },
            Err(e) => {
                if e.ends_session() {
                    match self.close(face) {
                        Ok(out) => Served { out, refused: Some(e) },
                        Err(_) => Served { out: Vec::new(), refused: Some(e) },
                    }
                } else {
                    Served { out: Vec::new(), refused: Some(e) }
                }
            },
        }
    }
}

} // verus!
