//! Resources: the nodes of the trie of names, and what each face has
//! declared on them.
//!
//! The nodes live in one sequence and name each other by position. A node
//! that was pruned stays in the sequence, marked dead, so that a position
//! names the same resource for ever.

use vstd::prelude::*;
use crate::proto::decl::SubInfo;
use crate::routing::names::{first_chunk, key_intersect, lemma_chunks, rest_chunks};
use crate::types::{ResourceId, NO_RESOURCE_ID};

verus! {

/// What one face has declared on one resource.
#[derive(Clone, Copy, Debug, PartialEq, Eq)]
pub struct Context {
    /// The face.
    pub face: usize,
    /// The id that the broker gave the resource on that face.
    pub local_rid: Option<ResourceId>,
    /// The id that the face gave the resource.
    pub remote_rid: Option<ResourceId>,
    /// The subscription of the face to the resource.
    pub subs: Option<SubInfo>,
    /// Whether the face answers queries on the resource.
    pub qabl: bool,
}

impl Context {
    /// The face has declared nothing.
    pub open spec fn spec_is_empty(self) -> bool {
        self.local_rid is None && self.remote_rid is None && self.subs is None && !self.qabl
    }

    /// The id to use for the resource on the face: the one that the face
    /// gave, else the one that the broker gave. The id 0 is none to use: in
    /// a key it stands for no resource.
    pub open spec fn spec_rid(self) -> Option<ResourceId> {
        if self.remote_rid is Some && self.remote_rid != Some(NO_RESOURCE_ID) {
            self.remote_rid
        } else {
            self.local_rid
        }
    }

    /// The context of a face that has declared nothing.
    pub fn new(face: usize) -> (c: Context)
        ensures
            c.face == face,
            c.spec_is_empty(),
    {
        Context { face, local_rid: None, remote_rid: None, subs: None, qabl: false }
    }

    /// Whether the face has declared nothing.
    pub fn is_empty(&self) -> (r: bool)
        ensures
            r == self.spec_is_empty(),
    {
        self.local_rid.is_none() && self.remote_rid.is_none() && self.subs.is_none() && !self.qabl
    }

    /// The id to use for the resource on the face.
    pub fn rid(&self) -> (r: Option<ResourceId>)
        ensures
            r == self.spec_rid(),
    {
        match self.remote_rid {
            Some(r) => if r != NO_RESOURCE_ID {
                self.remote_rid
            } else {
                self.local_rid
            },
            None => self.local_rid,
        }
    }
}

/// Where data for a resource goes: a face, and the key to use on that face,
/// as an id and what follows the name of the id.
#[derive(Clone, Debug, PartialEq, Eq)]
pub struct RouteEntry {
    pub face: usize,
    pub rid: ResourceId,
    pub suffix: String,
}

/// A node of the trie.
///
/// Its children, its matches and the contexts of the faces are kept in the
/// order in which they came, each of them once.
pub struct Resource {
    pub(crate) alive: bool,
    pub(crate) parent: Option<usize>,
    pub(crate) suffix: String,
    pub(crate) name: String,
    pub(crate) children: Vec<usize>,
    pub(crate) contexts: Vec<Context>,
    pub(crate) matches: Vec<usize>,
}

impl Resource {
    /// The root: the resource with the empty name.
    pub(crate) fn root() -> (r: Resource)
        ensures
            r.alive,
            r.parent is None,
            r.suffix@.len() == 0,
            r.name@.len() == 0,
            r.children@.len() == 0,
            r.contexts@.len() == 0,
            r.matches@.len() == 0,
    {
        Resource {
            alive: true,
            parent: None,
            suffix: String::new(),
            name: String::new(),
            children: Vec::new(),
            contexts: Vec::new(),
            matches: Vec::new(),
        }
    }
}

/// The node `n` exists and was not pruned.
pub open(crate) spec fn live(rs: Seq<Resource>, n: int) -> bool {
    0 <= n < rs.len() && rs[n].alive
}

/// The node `n`, which is not the root, hangs under a live node that comes
/// before it, and its name is that of its parent followed by its own chunk,
/// which is one chunk and no more.
pub open(crate) spec fn node_ok(rs: Seq<Resource>, n: int) -> bool {
    &&& rs[n].parent matches Some(p)
    &&& p < n
    &&& rs[p as int].alive
    &&& rs[n].name@ == rs[p as int].name@ + rs[n].suffix@
    &&& rs[n].suffix@.len() > 0
    &&& first_chunk(rs[n].suffix@) == rs[n].suffix@
    &&& rs[p as int].children@.contains(n as usize)
}

/// The children of the node `n` are live nodes behind it that hang under
/// it, each listed once, and no two of them have the same chunk.
pub open(crate) spec fn children_ok(rs: Seq<Resource>, n: int) -> bool {
    &&& forall|i: int|
        0 <= i < rs[n].children@.len() ==> {
            let c = #[trigger] rs[n].children@[i];
            &&& n < c < rs.len()
            &&& rs[c as int].alive
            &&& rs[c as int].parent == Some(n as usize)
        }
    &&& rs[n].children@.no_duplicates()
    &&& forall|i: int, j: int|
        0 <= i < rs[n].children@.len() && 0 <= j < rs[n].children@.len() && i != j ==> rs[(
        #[trigger] rs[n].children@[i]) as int].suffix@ != rs[(
        #[trigger] rs[n].children@[j]) as int].suffix@
}

/// The child of the node `n` whose chunk is `chunk`, if there is one.
pub open(crate) spec fn child_at(rs: Seq<Resource>, n: int, chunk: Seq<char>) -> Option<usize> {
    if exists|i: int|
        0 <= i < rs[n].children@.len() && rs[(#[trigger] rs[n].children@[i]) as int].suffix@
            == chunk {
        let i = choose|i: int|
            0 <= i < rs[n].children@.len() && rs[(#[trigger] rs[n].children@[i]) as int].suffix@
                == chunk;
        Some(rs[n].children@[i])
    } else {
        None
    }
}

/// The node that is reached from the node `n` by following the chunks of
/// `name`, one child for each chunk, if every one of these children is there.
pub open(crate) spec fn descend(rs: Seq<Resource>, n: int, name: Seq<char>) -> Option<usize>
    decreases name.len(),
    via descend_decreases
{
    if name.len() == 0 {
        Some(n as usize)
    } else {
        match child_at(rs, n, first_chunk(name)) {
            Some(c) => descend(rs, c as int, rest_chunks(name)),
            None => None,
        }
    }
}

#[via_fn]
proof fn descend_decreases(rs: Seq<Resource>, n: int, name: Seq<char>) {
    lemma_chunks(name);
}

/// Following the chunks of `s` from the node `a` leads to the node `x` with `t` still to follow.
pub open(crate) spec fn walks(rs: Seq<Resource>, a: int, s: Seq<char>, x: int, t: Seq<char>) -> bool
    decreases s.len(),
    via walks_decreases
{
    (a == x && s == t) || (s.len() > 0 && match child_at(rs, a, first_chunk(s)) {
        Some(c) => walks(rs, c as int, rest_chunks(s), x, t),
        None => false,
    })
}

#[via_fn]
proof fn walks_decreases(rs: Seq<Resource>, a: int, s: Seq<char>, x: int, t: Seq<char>) {
    lemma_chunks(s);
}

/// The child of a node with a given chunk is the child that `child_at` finds.
pub(crate) proof fn lemma_child_at(rs: Seq<Resource>, n: int, i: int)
    requires
        0 <= n < rs.len(),
        children_ok(rs, n),
        0 <= i < rs[n].children@.len(),
    ensures
        child_at(rs, n, rs[rs[n].children@[i] as int].suffix@) == Some(rs[n].children@[i]),
{
    let chunk = rs[rs[n].children@[i] as int].suffix@;
    let k = choose|k: int|
        0 <= k < rs[n].children@.len() && rs[(#[trigger] rs[n].children@[k]) as int].suffix@
            == chunk;
    assert(k == i);
}

/// What `child_at` finds is a child with the chunk asked for.
pub(crate) proof fn lemma_child_at_is(rs: Seq<Resource>, n: int, chunk: Seq<char>)
    ensures
        child_at(rs, n, chunk) matches Some(c) ==> exists|i: int|
            0 <= i < rs[n].children@.len() && #[trigger] rs[n].children@[i] == c
                && rs[c as int].suffix@ == chunk,
{
    if child_at(rs, n, chunk) is Some {
        let c = child_at(rs, n, chunk)->0;
        assert(exists|i: int|
            0 <= i < rs[n].children@.len() && rs[(#[trigger] rs[n].children@[i]) as int].suffix@
                == chunk);
    }
}

/// Where the nodes keep their children and their chunks, the chunks of a
/// name lead where they led.
pub(crate) proof fn lemma_descend_frame(rs: Seq<Resource>, rs2: Seq<Resource>, a: int, s: Seq<char>)
    requires
        structure_ok(rs),
        structure_ok(rs2),
        rs.len() == rs2.len(),
        0 <= a < rs.len(),
        forall|n: int|
            0 <= n < rs.len() ==> (#[trigger] rs2[n]).suffix@ == rs[n].suffix@ && rs2[n].children@
                == rs[n].children@,
    ensures
        descend(rs2, a, s) == descend(rs, a, s),
    decreases s.len(),
{
    if s.len() > 0 {
        lemma_chunks(s);
        let chunk = first_chunk(s);
        lemma_child_at_is(rs, a, chunk);
        lemma_child_at_is(rs2, a, chunk);
        assert(children_ok(rs, a));
        assert(children_ok(rs2, a));
        if let Some(c) = child_at(rs, a, chunk) {
            let i = choose|i: int|
                0 <= i < rs[a].children@.len() && #[trigger] rs[a].children@[i] == c
                    && rs[c as int].suffix@ == chunk;
            assert(rs2[c as int].suffix@ == rs[c as int].suffix@);
            lemma_child_at(rs2, a, i);
            lemma_descend_frame(rs, rs2, c as int, rest_chunks(s));
        } else if let Some(c) = child_at(rs2, a, chunk) {
            let i = choose|i: int|
                0 <= i < rs2[a].children@.len() && #[trigger] rs2[a].children@[i] == c
                    && rs2[c as int].suffix@ == chunk;
            assert(rs2[c as int].suffix@ == rs[c as int].suffix@);
            lemma_child_at(rs, a, i);
        }
    }
}

/// Where following `s` from `a` leads to `x` with `t` left, following `s`
/// from `a` to its end leads where following `t` from `x` leads.
pub(crate) proof fn lemma_walks_descend(
    rs: Seq<Resource>,
    a: int,
    s: Seq<char>,
    x: int,
    t: Seq<char>,
)
    requires
        walks(rs, a, s, x, t),
        0 <= a,
        0 <= x,
        a <= usize::MAX,
        x <= usize::MAX,
    ensures
        descend(rs, a, s) == descend(rs, x, t),
    decreases s.len(),
{
    if !(a == x && s == t) {
        lemma_chunks(s);
        let c = child_at(rs, a, first_chunk(s))->0;
        lemma_walks_descend(rs, c as int, rest_chunks(s), x, t);
    }
}

/// A walk goes on by one chunk into the child with that chunk.
pub(crate) proof fn lemma_walks_step(
    rs: Seq<Resource>,
    a: int,
    s: Seq<char>,
    x: int,
    t: Seq<char>,
    c: usize,
)
    requires
        walks(rs, a, s, x, t),
        t.len() > 0,
        child_at(rs, x, first_chunk(t)) == Some(c),
    ensures
        walks(rs, a, s, c as int, rest_chunks(t)),
    decreases s.len(),
{
    lemma_chunks(t);
    if a == x && s == t {
        assert(walks(rs, c as int, rest_chunks(t), c as int, rest_chunks(t)));
    } else {
        lemma_chunks(s);
        let d = child_at(rs, a, first_chunk(s))->0;
        lemma_walks_step(rs, d as int, rest_chunks(s), x, t, c);
    }
}

/// A walk in a trie leads to a node that is in the trie and does not come before its start.
pub(crate) proof fn lemma_walks_le(rs: Seq<Resource>, a: int, s: Seq<char>, x: int, t: Seq<char>)
    requires
        structure_ok(rs),
        walks(rs, a, s, x, t),
        0 <= a < rs.len(),
    ensures
        a <= x < rs.len(),
    decreases s.len(),
{
    if !(a == x && s == t) {
        lemma_chunks(s);
        lemma_child_at_is(rs, a, first_chunk(s));
        let c = child_at(rs, a, first_chunk(s))->0;
        assert(children_ok(rs, a));
        lemma_walks_le(rs, c as int, rest_chunks(s), x, t);
    }
}

/// A walk stays what it is where the trie changes at and behind its end only.
pub(crate) proof fn lemma_walks_frame(
    rs: Seq<Resource>,
    rs2: Seq<Resource>,
    a: int,
    s: Seq<char>,
    x: int,
    t: Seq<char>,
)
    requires
        structure_ok(rs),
        structure_ok(rs2),
        walks(rs, a, s, x, t),
        0 <= a < rs.len(),
        rs.len() <= rs2.len(),
        forall|n: int| 0 <= n < rs.len() ==> (#[trigger] rs2[n]).suffix@ == rs[n].suffix@,
        forall|n: int|
            0 <= n < rs.len() && n != x ==> (#[trigger] rs2[n]).children@ == rs[n].children@,
    ensures
        walks(rs2, a, s, x, t),
    decreases s.len(),
{
    if !(a == x && s == t) {
        lemma_chunks(s);
        lemma_walks_le(rs, a, s, x, t);
        lemma_child_at_is(rs, a, first_chunk(s));
        let c = child_at(rs, a, first_chunk(s))->0;
        let i = choose|i: int|
            0 <= i < rs[a].children@.len() && #[trigger] rs[a].children@[i] == c
                && rs[c as int].suffix@ == first_chunk(s);
        assert(children_ok(rs, a));
        lemma_walks_le(rs, c as int, rest_chunks(s), x, t);
        // the walk leaves `a`, so `a` is not its end
        assert(a != x);
        assert(rs2[a].children@ == rs[a].children@);
        assert(children_ok(rs2, a));
        assert(rs2[c as int].suffix@ == rs[c as int].suffix@);
        lemma_child_at(rs2, a, i);
        lemma_walks_frame(rs, rs2, c as int, rest_chunks(s), x, t);
    }
}

/// A pruned node holds nothing.
pub open(crate) spec fn dead_ok(r: Resource) -> bool {
    r.children@.len() == 0 && r.contexts@.len() == 0 && r.matches@.len() == 0
}

/// The nodes form a tree under the root, which is the first node.
pub open(crate) spec fn structure_ok(rs: Seq<Resource>) -> bool {
    &&& rs.len() >= 1
    &&& rs[0].alive
    &&& rs[0].parent is None
    &&& rs[0].name@.len() == 0
    &&& forall|n: int| 0 < n < rs.len() && #[trigger] rs[n].alive ==> node_ok(rs, n)
    &&& forall|n: int| 0 <= n < rs.len() ==> #[trigger] children_ok(rs, n)
    &&& forall|n: int| 0 <= n < rs.len() && !(#[trigger] rs[n].alive) ==> dead_ok(rs[n])
}

/// The matches of every live node are the live nodes whose name intersects its own.
pub open(crate) spec fn matches_ok(rs: Seq<Resource>) -> bool {
    &&& forall|n: int, i: int|
        0 <= n < rs.len() && 0 <= i < rs[n].matches@.len() ==> {
            let m = #[trigger] rs[n].matches@[i];
            live(rs, m as int) && key_intersect(rs[n].name@, rs[m as int].name@)
        }
    &&& forall|n: int, m: int|
        live(rs, n) && live(rs, m) && #[trigger] key_intersect(rs[n].name@, rs[m].name@)
            ==> rs[n].matches@.contains(m as usize)
}

/// Every live node but the root is held: a face has declared something on it, or it has a child.
pub open(crate) spec fn held_ok(rs: Seq<Resource>) -> bool {
    forall|n: int|
        0 < n < rs.len() && #[trigger] rs[n].alive ==> rs[n].contexts@.len() > 0
            || rs[n].children@.len() > 0
}

/// The position of the context of the face `f` among `cs`, if there is one.
pub open spec fn ctx_pos(cs: Seq<Context>, f: usize) -> Option<int>
    decreases cs.len(),
{
    if cs.len() == 0 {
        None
    } else if cs.last().face == f {
        Some(cs.len() - 1)
    } else {
        ctx_pos(cs.drop_last(), f)
    }
}

/// The context of the face `f` among `cs`; that of a face that has declared
/// nothing where there is none.
pub open spec fn ctx_of(cs: Seq<Context>, f: usize) -> Context {
    match ctx_pos(cs, f) {
        Some(i) => cs[i],
        None => Context { face: f, local_rid: None, remote_rid: None, subs: None, qabl: false },
    }
}

/// No two contexts are for the same face.
pub open spec fn distinct_faces(cs: Seq<Context>) -> bool {
    forall|i: int, j: int|
        0 <= i < cs.len() && 0 <= j < cs.len() && i != j ==> (#[trigger] cs[i]).face != (
        #[trigger] cs[j]).face
}

/// Where `ctx_pos` finds a context, it is one for the face; where it finds none, there is none.
pub proof fn lemma_ctx_pos(cs: Seq<Context>, f: usize)
    ensures
        ctx_pos(cs, f) matches Some(i) ==> 0 <= i < cs.len() && cs[i].face == f,
        ctx_pos(cs, f) is None ==> forall|i: int| 0 <= i < cs.len() ==> (#[trigger] cs[i]).face != f,
    decreases cs.len(),
{
    if cs.len() > 0 && cs.last().face != f {
        lemma_ctx_pos(cs.drop_last(), f);
        assert forall|i: int| 0 <= i < cs.len() && ctx_pos(cs, f) is None implies (
        #[trigger] cs[i]).face != f by {
            if i < cs.len() - 1 {
                assert(cs.drop_last()[i] == cs[i]);
            }
        }
    }
}

/// Among contexts for distinct faces, the context at a position is the one found for its face.
pub proof fn lemma_ctx_pos_at(cs: Seq<Context>, i: int)
    requires
        distinct_faces(cs),
        0 <= i < cs.len(),
    ensures
        ctx_pos(cs, cs[i].face) == Some(i),
        ctx_of(cs, cs[i].face) == cs[i],
{
    lemma_ctx_pos(cs, cs[i].face);
}

/// The context of a face that has declared nothing.
pub open spec fn empty_ctx(f: usize) -> Context {
    Context { face: f, local_rid: None, remote_rid: None, subs: None, qabl: false }
}

/// Among contexts for distinct faces, the context of a face is the one that
/// is for it, wherever it stands.
pub proof fn lemma_ctx_of(cs: Seq<Context>, f: usize)
    requires
        distinct_faces(cs),
    ensures
        (exists|i: int| 0 <= i < cs.len() && (#[trigger] cs[i]).face == f) ==> ctx_pos(cs, f)
            is Some && cs[ctx_pos(cs, f)->0].face == f && ctx_of(cs, f) == cs[ctx_pos(cs, f)->0],
        (forall|i: int| 0 <= i < cs.len() ==> (#[trigger] cs[i]).face != f) ==> ctx_pos(cs, f)
            is None && ctx_of(cs, f) == empty_ctx(f),
        ctx_of(cs, f).face == f,
{
    lemma_ctx_pos(cs, f);
}

/// Putting another context in the place of the context of a face changes
/// the context of that face and of no other.
pub proof fn lemma_ctx_update(cs: Seq<Context>, i: int, c: Context)
    requires
        distinct_faces(cs),
        0 <= i < cs.len(),
        cs[i].face == c.face,
    ensures
        distinct_faces(cs.update(i, c)),
        ctx_of(cs.update(i, c), c.face) == c,
        forall|g: usize| g != c.face ==> ctx_of(cs.update(i, c), g) == ctx_of(cs, g),
{
    let u = cs.update(i, c);
    assert forall|a: int, b: int| 0 <= a < u.len() && 0 <= b < u.len() && a != b implies (
    #[trigger] u[a]).face != (#[trigger] u[b]).face by {
        assert(cs[a].face != cs[b].face);
    }
    lemma_ctx_pos_at(u, i);
    assert forall|g: usize| g != c.face implies ctx_of(u, g) == ctx_of(cs, g) by {
        lemma_ctx_pos(cs, g);
        lemma_ctx_pos(u, g);
        match ctx_pos(cs, g) {
            Some(j) => {
                assert(u[j] == cs[j]);
                lemma_ctx_pos_at(u, j);
            },
            None => {
                if let Some(k) = ctx_pos(u, g) {
                    assert(cs[k].face == g);
                }
            },
        }
    }
}

/// Adding a context for a face that had none changes the context of that
/// face and of no other.
pub proof fn lemma_ctx_push(cs: Seq<Context>, c: Context)
    requires
        distinct_faces(cs),
        ctx_pos(cs, c.face) is None,
    ensures
        distinct_faces(cs.push(c)),
        ctx_of(cs.push(c), c.face) == c,
        forall|g: usize| g != c.face ==> ctx_of(cs.push(c), g) == ctx_of(cs, g),
{
    let u = cs.push(c);
    lemma_ctx_pos(cs, c.face);
    assert forall|a: int, b: int| 0 <= a < u.len() && 0 <= b < u.len() && a != b implies (
    #[trigger] u[a]).face != (#[trigger] u[b]).face by {
        if a < cs.len() && b < cs.len() {
            assert(cs[a].face != cs[b].face);
        } else if a < cs.len() {
            assert(cs[a].face != c.face);
        } else {
            assert(cs[b].face != c.face);
        }
    }
    assert(u.drop_last() =~= cs);
    assert forall|g: usize| g != c.face implies ctx_of(u, g) == ctx_of(cs, g) by {
        lemma_ctx_pos(cs, g);
        assert(ctx_pos(u, g) == ctx_pos(cs, g));
        if let Some(j) = ctx_pos(cs, g) {
            assert(u[j] == cs[j]);
        }
    }
}

/// Taking the context of a face away leaves that face without a context and
/// the others with theirs.
pub proof fn lemma_ctx_remove(cs: Seq<Context>, i: int)
    requires
        distinct_faces(cs),
        0 <= i < cs.len(),
    ensures
        distinct_faces(cs.remove(i)),
        ctx_of(cs.remove(i), cs[i].face) == empty_ctx(cs[i].face),
        forall|g: usize| g != cs[i].face ==> ctx_of(cs.remove(i), g) == ctx_of(cs, g),
        forall|k: int| 0 <= k < cs.remove(i).len() ==> cs.contains(#[trigger] cs.remove(i)[k]),
{
    let u = cs.remove(i);
    assert forall|k: int| 0 <= k < u.len() implies cs.contains(#[trigger] u[k]) && u[k] == cs[if k
        < i {
        k
    } else {
        k + 1
    }] by {
        let j = if k < i {
            k
        } else {
            k + 1
        };
        assert(u[k] == cs[j]);
    }
    assert forall|a: int, b: int| 0 <= a < u.len() && 0 <= b < u.len() && a != b implies (
    #[trigger] u[a]).face != (#[trigger] u[b]).face by {
        let x = if a < i {
            a
        } else {
            a + 1
        };
        let y = if b < i {
            b
        } else {
            b + 1
        };
        assert(u[a] == cs[x]);
        assert(u[b] == cs[y]);
        assert(cs[x].face != cs[y].face);
    }
    let f = cs[i].face;
    lemma_ctx_pos(u, f);
    if let Some(k) = ctx_pos(u, f) {
        let j = if k < i {
            k
        } else {
            k + 1
        };
        assert(u[k] == cs[j]);
        assert(cs[j].face != cs[i].face);
    }
    assert forall|g: usize| g != f implies ctx_of(u, g) == ctx_of(cs, g) by {
        lemma_ctx_pos(cs, g);
        lemma_ctx_pos(u, g);
        match ctx_pos(cs, g) {
            Some(j) => {
                let k = if j < i {
                    j
                } else {
                    j - 1
                };
                assert(u[k] == cs[j]);
                lemma_ctx_pos_at(u, k);
            },
            None => {
                if let Some(k) = ctx_pos(u, g) {
                    let j = if k < i {
                        k
                    } else {
                        k + 1
                    };
                    assert(u[k] == cs[j]);
                }
            },
        }
    }
}

/// The position of the context of the face `f` among `cs`, if there is one.
pub fn find_context(cs: &Vec<Context>, f: usize) -> (r: Option<usize>)
    requires
        distinct_faces(cs@),
    ensures
        r matches Some(i) ==> i < cs@.len() && cs@[i as int].face == f && ctx_of(cs@, f)
            == cs@[i as int],
        r is None ==> ctx_pos(cs@, f) is None && ctx_of(cs@, f) == empty_ctx(f),
{
    let mut i: usize = 0;
    while i < cs.len()
        invariant
            i <= cs.len(),
            distinct_faces(cs@),
            forall|k: int| 0 <= k < i ==> (#[trigger] cs@[k]).face != f,
        decreases cs.len() - i,
    {
        if cs[i].face == f {
            proof {
                lemma_ctx_pos_at(cs@, i as int);
            }
            return Some(i);
        }
        i = i + 1;
    }
    proof {
        lemma_ctx_of(cs@, f);
    }
    None
}

/// The context of the face `f` among `cs`; that of a face that has declared
/// nothing where there is none.
pub fn get_context(cs: &Vec<Context>, f: usize) -> (c: Context)
    requires
        distinct_faces(cs@),
    ensures
        c == ctx_of(cs@, f),
{
    match find_context(cs, f) {
        Some(i) => cs[i],
        None => Context::new(f),
    }
}

} // verus!
