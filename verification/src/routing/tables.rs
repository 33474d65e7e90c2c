//! The routing tables: the trie of resources, the faces, and for every
//! resource the faces that data for it goes to.

use vstd::prelude::*;
use crate::routing::clean::is_above;
use crate::routing::face::{distinct_rids, maps_to_seq, Face, Mapping};
use crate::routing::names::{
    concat, key_intersect, lemma_key_intersect_reflexive, lemma_key_intersect_symmetric,
    names_intersect, str_eq,
};
use crate::routing::names::{first_chunk, fst_chunk};
use crate::routing::routes::{interested, routes_ok, wants, Seek};
use crate::routing::resource::{
    child_at, children_ok, ctx_of, descend, lemma_child_at, lemma_walks_descend,
    lemma_walks_frame, lemma_walks_step, walks, dead_ok, distinct_faces, held_ok, live, matches_ok, node_ok,
    structure_ok, Context, Resource, RouteEntry,
};
use crate::types::{ResourceId, WhatAmI, NO_RESOURCE_ID};

verus! {

/// The routing tables.
///
/// Resources and faces are kept in the order in which they came: the place
/// of a resource is what stands for it everywhere, and the place of a face
/// is its id. A place is never used again. What the tables ask of faces is
/// asked in that order, so that it is the same on every run.
pub struct Tables {
    pub(crate) resources: Vec<Resource>,
    pub(crate) faces: Vec<Face>,
    pub(crate) routes: Vec<Vec<RouteEntry>>,
}

/// The context is that of an attached face and says something, and the id
/// that the broker gave is not the id that stands for no resource.
pub open(crate) spec fn ctx_ok(c: Context, fs: Seq<Face>) -> bool {
    &&& c.face < fs.len()
    &&& fs[c.face as int].attached
    &&& !c.spec_is_empty()
    &&& c.local_rid != Some(NO_RESOURCE_ID)
}

/// Every context is that of an attached face and says something, and a node
/// has one context for a face at most.
pub open(crate) spec fn contexts_ok(rs: Seq<Resource>, fs: Seq<Face>) -> bool {
    &&& forall|n: int, i: int|
        0 <= n < rs.len() && 0 <= i < rs[n].contexts@.len() ==> {
            let c = #[trigger] rs[n].contexts@[i];
            ctx_ok(c, fs)
        }
    &&& forall|n: int| 0 <= n < rs.len() ==> distinct_faces(#[trigger] rs[n].contexts@)
}

/// The ids of a face and the contexts agree. Every id of a face stands for a
/// live resource on which the face has an id of that kind; every id in a
/// context is an id of its face for that resource. A face has no id twice,
/// be it one that it gave or one that the broker gave. A detached face has
/// no ids.
pub open(crate) spec fn mappings_ok(rs: Seq<Resource>, fs: Seq<Face>) -> bool {
    &&& forall|f: int, i: int|
        0 <= f < fs.len() && 0 <= i < fs[f].mappings@.len() ==> mapping_ok(
            #[trigger] fs[f].mappings@[i],
            f,
            rs,
        )
    &&& forall|n: int, k: int|
        0 <= n < rs.len() && 0 <= k < rs[n].contexts@.len() ==> ids_mapped(
            #[trigger] rs[n].contexts@[k],
            n,
            fs,
        )
    &&& forall|f: int|
        0 <= f < fs.len() ==> {
            &&& distinct_rids(#[trigger] fs[f].mappings@)
            &&& fs[f].id == f
            &&& !fs[f].attached ==> fs[f].mappings@.len() == 0
        }
}

/// The id `m` of the face `f` stands for a live resource on which the face
/// has an id of the same kind; the broker does not give the id that stands
/// for no resource.
pub open(crate) spec fn mapping_ok(m: Mapping, f: int, rs: Seq<Resource>) -> bool {
    &&& live(rs, m.res as int)
    &&& m.local ==> m.rid != NO_RESOURCE_ID
    &&& if m.local {
        ctx_of(rs[m.res as int].contexts@, f as usize).local_rid is Some
    } else {
        ctx_of(rs[m.res as int].contexts@, f as usize).remote_rid is Some
    }
}

/// The id `r` of the face stands for the node `n`, and the broker gave it (`local`) or not.
pub open(crate) spec fn maps_to(face: Face, r: ResourceId, n: int, local: bool) -> bool {
    maps_to_seq(face.mappings@, r, n, local)
}

/// The ids in the context `c` of the node `n` are ids of its face for `n`.
pub open(crate) spec fn ids_mapped(c: Context, n: int, fs: Seq<Face>) -> bool {
    &&& c.remote_rid matches Some(r) ==> maps_to(fs[c.face as int], r, n, false)
    &&& c.local_rid matches Some(r) ==> maps_to(fs[c.face as int], r, n, true)
}

/// The contexts and the ids stay right where the contexts stay what they
/// are and no node with a context leaves.
pub(crate) proof fn lemma_mappings_frame(a: Seq<Resource>, b: Seq<Resource>, fs: Seq<Face>)
    requires
        contexts_ok(a, fs),
        mappings_ok(a, fs),
        a.len() <= b.len(),
        forall|n: int|
            0 <= n < a.len() ==> (#[trigger] b[n]).contexts@ == a[n].contexts@ && (a[n].alive
                && a[n].contexts@.len() > 0 ==> b[n].alive),
        forall|n: int| a.len() <= n < b.len() ==> (#[trigger] b[n]).contexts@.len() == 0,
    ensures
        contexts_ok(b, fs),
        mappings_ok(b, fs),
{
    assert forall|n: int, i: int| 0 <= n < b.len() && 0 <= i < b[n].contexts@.len() implies {
        let c = #[trigger] b[n].contexts@[i];
        ctx_ok(c, fs)
    } by {
        assert(a[n].contexts@[i] == b[n].contexts@[i]);
    }
    assert forall|n: int| 0 <= n < b.len() implies distinct_faces(#[trigger] b[n].contexts@) by {
        if n < a.len() {
            assert(distinct_faces(a[n].contexts@));
        }
    }
    assert forall|f: int, i: int| 0 <= f < fs.len() && 0 <= i < fs[f].mappings@.len() implies mapping_ok(
        #[trigger] fs[f].mappings@[i],
        f,
        b,
    ) by {
        let m = fs[f].mappings@[i];
        assert(mapping_ok(m, f, a));
        assert(b[m.res as int].contexts@ == a[m.res as int].contexts@);
    }
    assert forall|n: int, k: int| 0 <= n < b.len() && 0 <= k < b[n].contexts@.len() implies ids_mapped(
        #[trigger] b[n].contexts@[k],
        n,
        fs,
    ) by {
        assert(a[n].contexts@[k] == b[n].contexts@[k]);
    }
}

/// The trie, the matches, the contexts and the ids are as they should be.
pub open(crate) spec fn core_ok(rs: Seq<Resource>, fs: Seq<Face>) -> bool {
    &&& structure_ok(rs)
    &&& matches_ok(rs)
    &&& contexts_ok(rs, fs)
    &&& mappings_ok(rs, fs)
}

/// The nodes of `a` are nodes of `b`, as live as before, with the same name,
/// parent and contexts.
pub open(crate) spec fn extends(a: Seq<Resource>, b: Seq<Resource>) -> bool {
    &&& a.len() <= b.len()
    &&& forall|n: int|
        0 <= n < a.len() ==> {
            &&& (#[trigger] b[n]).alive == a[n].alive
            &&& b[n].name@ == a[n].name@
            &&& b[n].suffix@ == a[n].suffix@
            &&& b[n].parent == a[n].parent
            &&& b[n].contexts@ == a[n].contexts@
        }
}

/// A sequence with one more item holds what it held, and that item.
pub proof fn lemma_push_contains<T>(s: Seq<T>, x: T, y: T)
    ensures
        s.push(x).contains(y) == (s.contains(y) || y == x),
{
    if s.contains(y) {
        let i = choose|i: int| 0 <= i < s.len() && s[i] == y;
        assert(s.push(x)[i] == y);
    }
    if y == x {
        assert(s.push(x)[s.len() as int] == y);
    }
    if s.push(x).contains(y) {
        let i = choose|i: int| 0 <= i < s.push(x).len() && s.push(x)[i] == y;
        if i < s.len() {
            assert(s[i] == y);
        }
    }
}

/// While the node `c` is being matched, the matches hold only intersecting
/// nodes, they are complete among the other nodes, and the nodes before `i`
/// and `c` know of each other.
pub open(crate) spec fn matches_partial(rs: Seq<Resource>, c: int, i: int) -> bool {
    &&& forall|n: int, k: int|
        0 <= n < rs.len() && 0 <= k < rs[n].matches@.len() ==> {
            let m = #[trigger] rs[n].matches@[k];
            live(rs, m as int) && key_intersect(rs[n].name@, rs[m as int].name@)
        }
    &&& forall|n: int, m: int|
        live(rs, n) && live(rs, m) && n != c && m != c && #[trigger] key_intersect(
            rs[n].name@,
            rs[m].name@,
        ) ==> rs[n].matches@.contains(m as usize)
    &&& forall|n: int|
        live(rs, n) && n < i && n != c && #[trigger] key_intersect(rs[n].name@, rs[c].name@)
            ==> rs[n].matches@.contains(c as usize) && rs[c].matches@.contains(n as usize)
}

/// The nodes of `b` are those of `a` but for their matches, and a pruned node has none.
pub open(crate) spec fn same_but_matches(a: Seq<Resource>, b: Seq<Resource>) -> bool {
    &&& a.len() == b.len()
    &&& forall|n: int|
        0 <= n < a.len() ==> {
            &&& (#[trigger] b[n]).alive == a[n].alive
            &&& b[n].name@ == a[n].name@
            &&& b[n].suffix@ == a[n].suffix@
            &&& b[n].parent == a[n].parent
            &&& b[n].contexts@ == a[n].contexts@
            &&& b[n].children@ == a[n].children@
            &&& !b[n].alive ==> b[n].matches@.len() == 0
        }
}

/// What holds of the trie, the contexts and the ids does not depend on the matches.
pub(crate) proof fn lemma_same_but_matches(a: Seq<Resource>, b: Seq<Resource>, fs: Seq<Face>)
    requires
        structure_ok(a),
        contexts_ok(a, fs),
        mappings_ok(a, fs),
        same_but_matches(a, b),
    ensures
        structure_ok(b),
        contexts_ok(b, fs),
        mappings_ok(b, fs),
        held_ok(a) ==> held_ok(b),
        extends(a, b),
{
    assert forall|n: int| 0 < n < b.len() && #[trigger] b[n].alive implies node_ok(b, n) by {
        assert(a[n].alive);
        assert(node_ok(a, n));
    }
    assert forall|n: int| 0 <= n < b.len() implies #[trigger] children_ok(b, n) by {
        assert(children_ok(a, n));
        assert(b[n].children@ == a[n].children@);
        assert forall|i: int, j: int|
            0 <= i < b[n].children@.len() && 0 <= j < b[n].children@.len() && i != j implies b[(
            #[trigger] b[n].children@[i]) as int].suffix@ != b[(
            #[trigger] b[n].children@[j]) as int].suffix@ by {
            let x = a[n].children@[i];
            let y = a[n].children@[j];
            assert(a[x as int].suffix@ != a[y as int].suffix@);
        }
    }
    assert forall|n: int| 0 <= n < b.len() && !(#[trigger] b[n].alive) implies dead_ok(b[n]) by {
        assert(!a[n].alive);
        assert(dead_ok(a[n]));
    }
    lemma_mappings_frame(a, b, fs);
    if held_ok(a) {
        assert forall|n: int| 0 < n < b.len() && #[trigger] b[n].alive implies b[n].contexts@.len()
            > 0 || b[n].children@.len() > 0 by {
            assert(a[n].alive);
        }
    }
}

/// Every live node but the root and `r` is held by a face or by a child.
pub open(crate) spec fn held_but(rs: Seq<Resource>, r: int) -> bool {
    forall|n: int|
        0 < n < rs.len() && n != r && #[trigger] rs[n].alive ==> rs[n].contexts@.len() > 0
            || rs[n].children@.len() > 0
}

impl Tables {
    /// The tables hold together: the resources form a trie, every resource
    /// knows the resources that intersect it, every context belongs to an
    /// attached face, every id stands for a live resource, every resource but
    /// the root is held by a face or by a child, and every route is right.
    pub open(crate) spec fn wf(&self) -> bool {
        &&& core_ok(self.resources@, self.faces@)
        &&& held_ok(self.resources@)
        &&& routes_ok(self.resources@, self.faces@, self.routes@)
    }

    /// The resources form a trie under the root.
    pub open(crate) spec fn trie_ok(&self) -> bool {
        structure_ok(self.resources@)
    }

    /// The number of resources that were ever made, the pruned ones too.
    pub open(crate) spec fn spec_len(&self) -> nat {
        self.resources@.len()
    }

    /// The resource `n` is in the trie.
    pub open(crate) spec fn is_live(&self, n: usize) -> bool {
        live(self.resources@, n as int)
    }

    /// The full name of the resource `n`.
    pub open(crate) spec fn name(&self, n: usize) -> Seq<char> {
        self.resources@[n as int].name@
    }

    /// The chunk of the resource `n` under its parent.
    pub open(crate) spec fn suffix(&self, n: usize) -> Seq<char> {
        self.resources@[n as int].suffix@
    }

    /// The parent of the resource `n`; none for the root.
    pub open(crate) spec fn parent(&self, n: usize) -> Option<usize> {
        self.resources@[n as int].parent
    }

    /// The children of the resource `n`.
    pub open(crate) spec fn children(&self, n: usize) -> Seq<usize> {
        self.resources@[n as int].children@
    }

    /// The resources whose name intersects that of the resource `n`.
    pub open(crate) spec fn matches(&self, n: usize) -> Seq<usize> {
        self.resources@[n as int].matches@
    }

    /// What the face `f` has declared on the resource `n`.
    pub open(crate) spec fn context(&self, n: usize, f: usize) -> Context {
        ctx_of(self.resources@[n as int].contexts@, f)
    }

    /// The face `f` is attached.
    pub open(crate) spec fn has_face(&self, f: usize) -> bool {
        f < self.faces@.len() && self.faces@[f as int].attached
    }

    /// The role of the face `f`.
    pub open(crate) spec fn whatami(&self, f: usize) -> WhatAmI {
        self.faces@[f as int].whatami
    }

    /// The child of the resource `n` whose chunk is `chunk`, if there is one.
    pub open(crate) spec fn child(&self, n: usize, chunk: Seq<char>) -> Option<usize> {
        child_at(self.resources@, n as int, chunk)
    }

    /// The resource that is reached from the resource `n` by following the
    /// chunks of `name`, one child for each chunk, if all of them are there.
    pub open(crate) spec fn resource_at(&self, n: usize, name: Seq<char>) -> Option<usize> {
        descend(self.resources@, n as int, name)
    }

    /// The root of the trie: the resource with the empty name.
    pub open spec fn root() -> usize {
        0
    }

    /// Empty tables: the root and nothing else, and no face.
    pub fn new() -> (t: Tables)
        ensures
            t.wf(),
            t.spec_len() == 1,
            t.is_live(Self::root()),
            t.name(Self::root()) == Seq::<char>::empty(),
            t.face_seq().len() == 0,
            forall|f: usize| !t.has_face(f),
    {
        let mut resources: Vec<Resource> = Vec::new();
        let mut root = Resource::root();
        root.matches.push(0);
        resources.push(root);
        let mut routes: Vec<Vec<RouteEntry>> = Vec::new();
        routes.push(Vec::new());
        let t = Tables { resources, faces: Vec::new(), routes };
        proof {
            let rs = t.resources@;
            assert forall|f: usize| !interested(rs, f, rs[0].name@, Seek::Subscribers) by {
                assert forall|m: int| live(rs, m) implies !wants(rs, m, f, Seek::Subscribers) by {
                    assert(rs[m].contexts@.len() == 0);
                }
            }
            assert(rs[0].name@ =~= Seq::<char>::empty());
            lemma_key_intersect_reflexive(rs[0].name@);
            assert(rs[0].matches@[0] == 0);
            assert(rs[0].matches@.contains(0usize));
            assert(rs[0].children@.no_duplicates());
            assert(children_ok(rs, 0));
        }
        t
    }

    /// The number of resources that were ever made, the pruned ones too.
    pub fn len(&self) -> (n: usize)
        ensures
            n == self.spec_len(),
    {
        self.resources.len()
    }

    /// Whether the resource `n` is in the trie.
    pub fn live(&self, n: usize) -> (r: bool)
        ensures
            r == self.is_live(n),
    {
        n < self.resources.len() && self.resources[n].alive
    }

    /// The full name of the resource `n`.
    pub fn get_name(&self, n: usize) -> (r: &String)
        requires
            n < self.spec_len(),
        ensures
            r@ == self.name(n),
    {
        &self.resources[n].name
    }

    /// The child of `n` whose chunk is `chunk`, if there is one.
    pub fn find_child(&self, n: usize, chunk: &str) -> (r: Option<usize>)
        requires
            self.trie_ok(),
            self.is_live(n),
        ensures
            r == self.child(n, chunk@),
            r matches Some(c) ==> self.is_live(c) && self.parent(c) == Some(n) && self.suffix(c)
                == chunk@ && self.name(c) == self.name(n) + chunk@ && n < c,
            r is None ==> forall|i: int|
                0 <= i < self.children(n).len() ==> self.suffix(#[trigger] self.children(n)[i])
                    != chunk@,
    {
        let children = &self.resources[n].children;
        let mut i: usize = 0;
        assert(children_ok(self.resources@, n as int));
        while i < children.len()
            invariant
                i <= children.len(),
                structure_ok(self.resources@),
                self.is_live(n),
                children@ == self.children(n),
                forall|k: int|
                    0 <= k < i ==> self.suffix(#[trigger] self.children(n)[k]) != chunk@,
            decreases children.len() - i,
        {
            let c = children[i];
            assert(children_ok(self.resources@, n as int));
            assert(c == self.resources@[n as int].children@[i as int]);
            if str_eq(self.resources[c].suffix.as_str(), chunk) {
                assert(node_ok(self.resources@, c as int));
                proof {
                    let rs = self.resources@;
                    let k = choose|k: int|
                        0 <= k < rs[n as int].children@.len() && rs[(
                        #[trigger] rs[n as int].children@[k]) as int].suffix@ == chunk@;
                    assert(k == i);
                }
                return Some(c);
            }
            i = i + 1;
        }
        None
    }

    /// Makes a node with the chunk `chunk` under `parent`. The new node has
    /// no matches yet, and nobody has it among theirs.
    pub(crate) fn push_node(&mut self, parent: usize, chunk: &str) -> (c: usize)
        requires
            core_ok(old(self).resources@, old(self).faces@),
            old(self).routes@.len() == old(self).resources@.len(),
            old(self).is_live(parent),
            chunk@.len() > 0,
            first_chunk(chunk@) == chunk@,
            old(self).child(parent, chunk@) is None,
        ensures
            c == old(self).resources@.len(),
            final(self).resources@.len() == c + 1,
            final(self).routes@.len() == c + 1,
            final(self).faces@ == old(self).faces@,
            extends(old(self).resources@, final(self).resources@),
            structure_ok(final(self).resources@),
            contexts_ok(final(self).resources@, final(self).faces@),
            mappings_ok(final(self).resources@, final(self).faces@),
            matches_partial(final(self).resources@, c as int, 0),
            final(self).is_live(c),
            final(self).parent(c) == Some(parent),
            final(self).suffix(c) == chunk@,
            final(self).name(c) == old(self).name(parent) + chunk@,
            final(self).resources@[c as int].contexts@.len() == 0,
            final(self).resources@[c as int].matches@.len() == 0,
            final(self).resources@[c as int].children@.len() == 0,
            final(self).children(parent).len() > 0,
            final(self).children(parent) == old(self).children(parent).push(c),
            forall|n: int|
                0 <= n < c && n != parent ==> (#[trigger] final(self).resources@[n]).children@
                    == old(self).resources@[n].children@,
            forall|n: int|
                0 <= n < c ==> (#[trigger] final(self).resources@[n]).children@.len() >= old(self).resources@[n].children@.len(),
    {
        let c = self.resources.len();
        let name = concat(self.resources[parent].name.as_str(), chunk);
        let node = Resource {
            alive: true,
            parent: Some(parent),
            suffix: String::from_str(chunk),
            name,
            children: Vec::new(),
            contexts: Vec::new(),
            matches: Vec::new(),
        };
        self.resources.push(node);
        self.routes.push(Vec::new());
        self.resources[parent].children.push(c);
        proof {
            let a = old(self).resources@;
            let b = self.resources@;
            let fs = self.faces@;
            assert(b[parent as int].children@ == a[parent as int].children@.push(c));
            assert(b[parent as int].children@[a[parent as int].children@.len() as int] == c);
            assert forall|n: int| 0 <= n < c && n != parent implies #[trigger] b[n] == a[n] by {}
            assert forall|n: int| 0 < n < b.len() && #[trigger] b[n].alive implies node_ok(b, n) by {
                if n < c {
                    assert(node_ok(a, n));
                    let p = a[n].parent->0;
                    if p == parent {
                        lemma_push_contains(a[parent as int].children@, c, n as usize);
                    }
                }
            }
            assert forall|n: int| 0 <= n < b.len() implies #[trigger] children_ok(b, n) by {
                if n < c {
                    assert(children_ok(a, n));
                    if n == parent {
                        assert forall|i: int, j: int|
                            0 <= i < b[n].children@.len() && 0 <= j < b[n].children@.len() && i
                                != j implies b[n].children@[i] != b[n].children@[j] by {
                            if i < a[n].children@.len() {
                                assert(a[n].children@[i] < c);
                            }
                            if j < a[n].children@.len() {
                                assert(a[n].children@[j] < c);
                            }
                        }
                    }
                    assert forall|i: int, j: int|
                        0 <= i < b[n].children@.len() && 0 <= j < b[n].children@.len() && i
                            != j implies b[(#[trigger] b[n].children@[i]) as int].suffix@ != b[(
                        #[trigger] b[n].children@[j]) as int].suffix@ by {
                        if i < a[n].children@.len() && j < a[n].children@.len() {
                            let x = a[n].children@[i];
                            let y = a[n].children@[j];
                            assert(a[x as int].suffix@ != a[y as int].suffix@);
                        } else if i < a[n].children@.len() {
                            let x = a[n].children@[i];
                            assert(a[x as int].suffix@ != chunk@);
                        } else if j < a[n].children@.len() {
                            let y = a[n].children@[j];
                            assert(a[y as int].suffix@ != chunk@);
                        }
                    }
                }
            }
            assert forall|n: int| 0 <= n < b.len() && !(#[trigger] b[n].alive) implies dead_ok(
                b[n],
            ) by {
                assert(dead_ok(a[n]));
            }
            lemma_mappings_frame(a, b, fs);
            assert forall|n: int, k: int| 0 <= n < b.len() && 0 <= k < b[n].matches@.len() implies {
                let m = #[trigger] b[n].matches@[k];
                live(b, m as int) && key_intersect(b[n].name@, b[m as int].name@)
            } by {
                let m = a[n].matches@[k];
                assert(live(a, m as int) && key_intersect(a[n].name@, a[m as int].name@));
            }
            assert forall|n: int, m: int|
                live(b, n) && live(b, m) && n != c && m != c && #[trigger] key_intersect(
                    b[n].name@,
                    b[m].name@,
                ) implies b[n].matches@.contains(m as usize) by {
                assert(key_intersect(a[n].name@, a[m].name@));
                assert(a[n].matches@.contains(m as usize));
            }
        }
        c
    }

    /// Makes the new node `c` and every node that intersects it know of each other.
    pub(crate) fn link_matches(&mut self, c: usize)
        requires
            structure_ok(old(self).resources@),
            contexts_ok(old(self).resources@, old(self).faces@),
            mappings_ok(old(self).resources@, old(self).faces@),
            matches_partial(old(self).resources@, c as int, 0),
            old(self).is_live(c),
            c + 1 == old(self).resources@.len(),
            old(self).resources@[c as int].matches@.len() == 0,
        ensures
            core_ok(final(self).resources@, final(self).faces@),
            same_but_matches(old(self).resources@, final(self).resources@),
            final(self).faces@ == old(self).faces@,
            final(self).routes@ == old(self).routes@,
    {
        let mut i: usize = 0;
        while i < c
            invariant
                i <= c,
                c + 1 == self.resources@.len(),
                self.is_live(c),
                same_but_matches(old(self).resources@, self.resources@),
                matches_partial(self.resources@, c as int, i as int),
                self.faces@ == old(self).faces@,
                self.routes@ == old(self).routes@,
                forall|k: int|
                    0 <= k < self.resources@[c as int].matches@.len() ==> (
                    #[trigger] self.resources@[c as int].matches@[k]) < i,
            decreases c - i,
        {
            let ghost before = self.resources@;
            if self.resources[i].alive && names_intersect(
                self.resources[c].name.as_str(),
                self.resources[i].name.as_str(),
            ) {
                self.resources[i].matches.push(c);
                self.resources[c].matches.push(i);
                proof {
                    let b = self.resources@;
                    lemma_key_intersect_symmetric(b[c as int].name@, b[i as int].name@);
                    assert(b[i as int].matches@ == before[i as int].matches@.push(c));
                    assert(b[c as int].matches@ == before[c as int].matches@.push(i));
                    assert forall|n: int, k: int|
                        0 <= n < b.len() && 0 <= k < b[n].matches@.len() implies {
                        let m = #[trigger] b[n].matches@[k];
                        live(b, m as int) && key_intersect(b[n].name@, b[m as int].name@)
                    } by {
                        if k < before[n].matches@.len() {
                            let m = before[n].matches@[k];
                            assert(live(before, m as int) && key_intersect(
                                before[n].name@,
                                before[m as int].name@,
                            ));
                        }
                    }
                    assert forall|n: int, m: int|
                        live(b, n) && live(b, m) && n != c && m != c && #[trigger] key_intersect(
                            b[n].name@,
                            b[m].name@,
                        ) implies b[n].matches@.contains(m as usize) by {
                        assert(key_intersect(before[n].name@, before[m].name@));
                        assert(before[n].matches@.contains(m as usize));
                        lemma_push_contains(before[n].matches@, c, m as usize);
                    }
                    assert forall|n: int|
                        live(b, n) && n < i + 1 && n != c && #[trigger] key_intersect(
                            b[n].name@,
                            b[c as int].name@,
                        ) implies b[n].matches@.contains(c) && b[c as int].matches@.contains(
                        n as usize,
                    ) by {
                        lemma_push_contains(before[c as int].matches@, i, n as usize);
                        lemma_push_contains(before[n].matches@, c, c);
                        if n < i {
                            assert(key_intersect(before[n].name@, before[c as int].name@));
                        }
                    }
                }
            } else {
                proof {
                    let b = self.resources@;
                    lemma_key_intersect_symmetric(b[c as int].name@, b[i as int].name@);
                }
            }
            i = i + 1;
        }
        let ghost before = self.resources@;
        self.resources[c].matches.push(c);
        proof {
            let a = old(self).resources@;
            let b = self.resources@;
            lemma_key_intersect_reflexive(b[c as int].name@);
            assert(b[c as int].matches@ == before[c as int].matches@.push(c));
            assert forall|n: int, k: int| 0 <= n < b.len() && 0 <= k < b[n].matches@.len() implies {
                let m = #[trigger] b[n].matches@[k];
                live(b, m as int) && key_intersect(b[n].name@, b[m as int].name@)
            } by {
                if k < before[n].matches@.len() {
                    let m = before[n].matches@[k];
                    assert(live(before, m as int) && key_intersect(
                        before[n].name@,
                        before[m as int].name@,
                    ));
                }
            }
            assert forall|n: int, m: int|
                live(b, n) && live(b, m) && #[trigger] key_intersect(
                    b[n].name@,
                    b[m].name@,
                ) implies b[n].matches@.contains(m as usize) by {
                if n != c && m != c {
                    assert(key_intersect(before[n].name@, before[m].name@));
                    assert(before[n].matches@.contains(m as usize));
                } else if n == c && m == c {
                    lemma_push_contains(before[c as int].matches@, c, c);
                } else if n == c {
                    lemma_key_intersect_symmetric(b[n].name@, b[m].name@);
                    assert(key_intersect(before[m].name@, before[c as int].name@));
                    lemma_push_contains(before[c as int].matches@, c, m as usize);
                } else {
                    assert(key_intersect(before[n].name@, before[c as int].name@));
                }
            }
            lemma_same_but_matches(a, b, self.faces@);
        }
    }

    /// The resource that is reached from `prefix` by following the chunks of
    /// `suffix`, if it is in the trie.
    pub(crate) fn lookup(&self, prefix: usize, suffix: &str) -> (r: Option<usize>)
        requires
            structure_ok(self.resources@),
            self.is_live(prefix),
        ensures
            r == self.resource_at(prefix, suffix@),
            r matches Some(n) ==> self.is_live(n) && self.name(n) == self.name(prefix) + suffix@,
    {
        let mut cur = prefix;
        let mut rest = suffix;
        assert(self.name(prefix) + suffix@ =~= self.name(prefix) + suffix@);
        while !rest.is_empty()
            invariant
                structure_ok(self.resources@),
                self.is_live(cur),
                self.name(cur) + rest@ == self.name(prefix) + suffix@,
                self.resource_at(prefix, suffix@) == self.resource_at(cur, rest@),
            decreases rest@.len(),
        {
            let (chunk, r) = fst_chunk(rest);
            match self.find_child(cur, chunk) {
                Some(c) => {
                    assert(self.name(c) + r@ =~= self.name(cur) + rest@);
                    cur = c;
                },
                None => {
                    return None;
                },
            }
            rest = r;
        }
        assert(self.name(cur) + rest@ =~= self.name(cur));
        Some(cur)
    }

    /// The resource that is reached from `prefix` by following the chunks of
    /// `suffix`, made on the way where it was not there. The last one of the
    /// resources made has no context yet.
    pub(crate) fn make_resource(&mut self, prefix: usize, suffix: &str) -> (r: usize)
        requires
            core_ok(old(self).resources@, old(self).faces@),
            old(self).routes@.len() == old(self).resources@.len(),
            old(self).is_live(prefix),
        ensures
            core_ok(final(self).resources@, final(self).faces@),
            final(self).routes@.len() == final(self).resources@.len(),
            final(self).faces@ == old(self).faces@,
            extends(old(self).resources@, final(self).resources@),
            final(self).is_live(r),
            final(self).name(r) == old(self).name(prefix) + suffix@,
            final(self).resource_at(prefix, suffix@) == Some(r),
            held_ok(old(self).resources@) ==> held_but(final(self).resources@, r as int),
            forall|n: int|
                old(self).resources@.len() <= n < final(self).resources@.len() ==> (
                #[trigger] final(self).resources@[n]).contexts@.len() == 0,
            forall|m: int|
                old(self).resources@.len() <= m < final(self).resources@.len() ==> is_above(
                    final(self).resources@,
                    r as int,
                    m,
                ),
    {
        let mut cur = prefix;
        let mut rest = suffix;
        assert(self.name(prefix) + suffix@ =~= self.name(prefix) + suffix@);
        let nres = self.resources.len();
        while !rest.is_empty()
            invariant
                core_ok(self.resources@, self.faces@),
                self.routes@.len() == self.resources@.len(),
                self.faces@ == old(self).faces@,
                extends(old(self).resources@, self.resources@),
                self.is_live(cur),
                self.is_live(prefix),
                self.name(cur) + rest@ == old(self).name(prefix) + suffix@,
                walks(self.resources@, prefix as int, suffix@, cur as int, rest@),
                held_ok(old(self).resources@) ==> held_but(self.resources@, cur as int),
                forall|n: int|
                    old(self).resources@.len() <= n < self.resources@.len() ==> (
                    #[trigger] self.resources@[n]).contexts@.len() == 0,
                forall|m: int|
                    old(self).resources@.len() <= m < self.resources@.len() ==> is_above(
                        self.resources@,
                        cur as int,
                        m,
                    ),
            decreases rest@.len(),
        {
            let (chunk, r) = fst_chunk(rest);
            let ghost before = self.resources@;
            match self.find_child(cur, chunk) {
                Some(c) => {
                    proof {
                        assert(self.name(c) + r@ =~= self.name(cur) + rest@);
                        assert(node_ok(self.resources@, c as int));
                        lemma_walks_step(
                            self.resources@,
                            prefix as int,
                            suffix@,
                            cur as int,
                            rest@,
                            c,
                        );
                        assert(self.resources@[c as int].parent == Some(cur) && cur < c);
                        assert forall|m: int|
                            old(self).resources@.len() <= m < self.resources@.len() implies is_above(
                            self.resources@,
                            c as int,
                            m,
                        ) by {
                            assert(is_above(self.resources@, cur as int, m));
                        }
                    }
                    cur = c;
                },
                None => {
                    proof {
                        crate::routing::names::lemma_first_chunk_is_one(rest@);
                    }
                    let c = self.push_node(cur, chunk);
                    let ghost pushed = self.resources@;
                    self.link_matches(c);
                    proof {
                        let now = self.resources@;
                        assert(before[prefix as int].alive);
                        lemma_walks_frame(
                            before,
                            now,
                            prefix as int,
                            suffix@,
                            cur as int,
                            rest@,
                        );
                        let kids = now[cur as int].children@;
                        assert(kids == before[cur as int].children@.push(c));
                        assert(kids[kids.len() - 1] == c);
                        assert(children_ok(now, cur as int));
                        lemma_child_at(now, cur as int, kids.len() - 1);
                        lemma_walks_step(now, prefix as int, suffix@, cur as int, rest@, c);
                        assert(self.name(c) + r@ =~= before[cur as int].name@ + rest@);
                        assert forall|n: int| 0 <= n < old(self).resources@.len() implies {
                            &&& (#[trigger] now[n]).alive == old(self).resources@[n].alive
                            &&& now[n].name@ == old(self).resources@[n].name@
                            &&& now[n].suffix@ == old(self).resources@[n].suffix@
                            &&& now[n].parent == old(self).resources@[n].parent
                            &&& now[n].contexts@ == old(self).resources@[n].contexts@
                        } by {
                            assert(before[n].alive == old(self).resources@[n].alive);
                            assert(pushed[n].alive == before[n].alive);
                        }
                        if held_ok(old(self).resources@) {
                            assert forall|n: int|
                                0 < n < now.len() && n != c && #[trigger] now[n].alive implies now[n].contexts@.len()
                                > 0 || now[n].children@.len() > 0 by {
                                assert(pushed[n].alive);
                                assert(before[n].alive);
                                if n != cur {
                                    assert(before[n].contexts@.len() > 0 || before[n].children@.len()
                                        > 0);
                                    assert(pushed[n].children@.len() >= before[n].children@.len());
                                }
                            }
                        }
                        assert forall|n: int|
                            old(self).resources@.len() <= n < now.len() implies (
                        #[trigger] now[n]).contexts@.len() == 0 by {
                            if n < before.len() {
                                assert(before[n].contexts@.len() == 0);
                                assert(pushed[n].contexts@ == before[n].contexts@);
                            }
                        }
                        assert(now[c as int].parent == Some(cur) && cur < c);
                        assert forall|m: int|
                            old(self).resources@.len() <= m < now.len() implies is_above(
                            now,
                            c as int,
                            m,
                        ) by {
                            if m < before.len() {
                                assert(is_above(before, cur as int, m));
                                assert forall|k: int| 0 <= k < before.len() implies (
                                #[trigger] now[k]).parent == before[k].parent by {
                                    assert(pushed[k].parent == before[k].parent);
                                }
                                crate::routing::clean::lemma_is_above_extends(
                                    before,
                                    now,
                                    cur as int,
                                    m,
                                );
                            }
                        }
                    }
                    cur = c;
                },
            }
            rest = r;
        }
        assert(self.name(cur) + rest@ =~= self.name(cur));
        proof {
            lemma_walks_descend(self.resources@, prefix as int, suffix@, cur as int, rest@);
        }
        cur
    }
}

} // verus!
