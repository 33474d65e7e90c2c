//! Pruning: taking out of the trie the resources that nothing holds.

use vstd::prelude::*;
use crate::routing::face::Face;
use crate::routing::names::{key_intersect, lemma_key_intersect_symmetric};
use crate::routing::resource::{
    children_ok, dead_ok, held_ok, live, matches_ok, node_ok, structure_ok, Resource,
};
use crate::routing::tables::{
    contexts_ok, core_ok, held_but, lemma_push_contains, mappings_ok, Tables,
};

verus! {

/// Whether a value is another than `x`.
pub open spec fn other_than(x: usize) -> spec_fn(usize) -> bool {
    |y: usize| y != x
}

/// Takes every `x` out of `v`: what else `v` holds stays, in its order and
/// as often as it was there.
pub fn remove_value(v: &mut Vec<usize>, x: usize)
    ensures
        final(v)@ == old(v)@.filter(other_than(x)),
        forall|y: usize| final(v)@.contains(y) == (old(v)@.contains(y) && y != x),
{
    let mut out: Vec<usize> = Vec::new();
    let mut i: usize = 0;
    assert(v@.take(0) =~= Seq::empty());
    proof {
        reveal(Seq::filter);
        assert(v@.take(0).filter(other_than(x)) =~= Seq::empty());
    }
    while i < v.len()
        invariant
            i <= v.len(),
            v@ == old(v)@,
            out@ == v@.take(i as int).filter(other_than(x)),
            forall|y: usize| out@.contains(y) == (v@.take(i as int).contains(y) && y != x),
        decreases v.len() - i,
    {
        let ghost before = out@;
        let e = v[i];
        if e != x {
            out.push(e);
        }
        proof {
            reveal(Seq::filter);
            assert(v@.take(i + 1).drop_last() =~= v@.take(i as int));
            assert(v@.take(i + 1).last() == e);
            assert(v@.take(i + 1) =~= v@.take(i as int).push(e));
            assert forall|y: usize| out@.contains(y) == (v@.take(i + 1).contains(y) && y
                != x) by {
                lemma_push_contains(v@.take(i as int), e, y);
                if e != x {
                    lemma_push_contains(before, e, y);
                }
            }
        }
        i = i + 1;
    }
    assert(v@.take(i as int) =~= v@);
    *v = out;
}

/// The node `a` is the node `n` or one of the nodes above it.
pub open(crate) spec fn is_above(rs: Seq<Resource>, n: int, a: int) -> bool
    decreases n,
{
    n == a || (0 <= n < rs.len() && (rs[n].parent matches Some(p) && p < n && is_above(
        rs,
        p as int,
        a,
    )))
}

/// Nothing holds the node `n`, which is not the root: it can be pruned.
pub open(crate) spec fn prunable(rs: Seq<Resource>, n: int) -> bool {
    &&& 0 < n < rs.len()
    &&& rs[n].alive
    &&& rs[n].contexts@.len() == 0
    &&& rs[n].children@.len() == 0
}

/// The nodes of `b` are those of `a` without the node `x`: `x` is dead, its
/// parent has lost it, nobody has it in their matches, and nothing else changed.
pub open(crate) spec fn pruned(a: Seq<Resource>, b: Seq<Resource>, x: int) -> bool {
    &&& a.len() == b.len()
    &&& !b[x].alive
    &&& forall|m: int|
        0 <= m < a.len() ==> {
            &&& m != x ==> (#[trigger] b[m]).alive == a[m].alive
            &&& b[m].name@ == a[m].name@
            &&& b[m].suffix@ == a[m].suffix@
            &&& b[m].parent == a[m].parent
            &&& b[m].contexts@ == a[m].contexts@
            &&& Some(m as usize) != a[x].parent ==> b[m].children@ == a[m].children@
        }
}

/// Being above a node depends on nothing but the parents of the nodes.
pub(crate) proof fn lemma_is_above_same(a: Seq<Resource>, b: Seq<Resource>, n: int, x: int)
    requires
        a.len() == b.len(),
        forall|m: int| 0 <= m < a.len() ==> (#[trigger] b[m]).parent == a[m].parent,
    ensures
        is_above(a, n, x) == is_above(b, n, x),
    decreases n,
{
    if n != x && 0 <= n < a.len() {
        if let Some(p) = a[n].parent {
            if p < n {
                lemma_is_above_same(a, b, p as int, x);
            }
        }
    }
}

/// Being above a node depends on nothing but the parents of the nodes, and
/// is the same in tables that have more nodes.
pub(crate) proof fn lemma_is_above_extends(a: Seq<Resource>, b: Seq<Resource>, n: int, x: int)
    requires
        a.len() <= b.len(),
        0 <= n < a.len(),
        forall|m: int| 0 <= m < a.len() ==> (#[trigger] b[m]).parent == a[m].parent,
    ensures
        is_above(a, n, x) == is_above(b, n, x),
    decreases n,
{
    if n != x {
        if let Some(p) = a[n].parent {
            if p < n {
                lemma_is_above_extends(a, b, p as int, x);
            }
        }
    }
}

/// A node above a live node is live and has a child, and it comes before that node.
pub(crate) proof fn lemma_above_live(rs: Seq<Resource>, n: int, x: int)
    requires
        structure_ok(rs),
        live(rs, n),
        is_above(rs, n, x),
        x != n,
    ensures
        live(rs, x),
        rs[x].children@.len() > 0,
        x < n,
    decreases n,
{
    if n > 0 {
        assert(node_ok(rs, n));
        let p = rs[n].parent->0;
        if p as int != x {
            lemma_above_live(rs, p as int, x);
        }
    }
}

/// The nodes of `b` are those of `a`, but the node `p` has lost its child at position `i`.
pub open(crate) spec fn child_dropped(a: Seq<Resource>, b: Seq<Resource>, p: int, i: int) -> bool {
    &&& a.len() == b.len()
    &&& 0 <= p < a.len()
    &&& 0 <= i < a[p].children@.len()
    &&& b[p].children@ == a[p].children@.remove(i)
    &&& forall|m: int|
        0 <= m < a.len() ==> {
            &&& (#[trigger] b[m]).alive == a[m].alive
            &&& b[m].name@ == a[m].name@
            &&& b[m].suffix@ == a[m].suffix@
            &&& b[m].parent == a[m].parent
            &&& b[m].contexts@ == a[m].contexts@
            &&& b[m].matches@ == a[m].matches@
            &&& m != p ==> b[m].children@ == a[m].children@
        }
}

/// The nodes of `b` are those of `a`, but nobody has the node `x` in their
/// matches, and `x` has no matches and is dead.
pub open(crate) spec fn unmatched(a: Seq<Resource>, b: Seq<Resource>, x: usize) -> bool {
    &&& a.len() == b.len()
    &&& x < a.len()
    &&& !b[x as int].alive
    &&& b[x as int].matches@.len() == 0
    &&& forall|m: int|
        0 <= m < a.len() ==> {
            &&& m != x ==> (#[trigger] b[m]).alive == a[m].alive
            &&& b[m].name@ == a[m].name@
            &&& b[m].suffix@ == a[m].suffix@
            &&& b[m].parent == a[m].parent
            &&& b[m].contexts@ == a[m].contexts@
            &&& b[m].children@ == a[m].children@
        }
    &&& forall|m: usize, y: usize|
        m < a.len() && m != x ==> (#[trigger] b[m as int].matches@.contains(y) <==> (a[m as int].matches@.contains(
            y,
        ) && y != x))
}

/// A trie whose node `x` has lost its place among the children of its
/// parent, and then its matches and its life, is a trie.
proof fn lemma_pruned_structure(
    a: Seq<Resource>,
    a1: Seq<Resource>,
    b: Seq<Resource>,
    x: usize,
    p: usize,
    i: int,
)
    requires
        a.len() <= usize::MAX,
        structure_ok(a),
        prunable(a, x as int),
        a[x as int].parent == Some(p),
        child_dropped(a, a1, p as int, i),
        a[p as int].children@[i] == x,
        unmatched(a1, b, x),
    ensures
        structure_ok(b),
        pruned(a, b, x as int),
        held_but(a, x as int) ==> held_but(b, p as int),
{
    let ac = a[p as int].children@;
    let bc = b[p as int].children@;
    assert(node_ok(a, x as int));
    assert(children_ok(a, p as int));
    assert(a1[p as int].children@ == ac.remove(i));
    assert(b[p as int].children@ == a1[p as int].children@);
    assert(bc == ac.remove(i));
    assert forall|j: int| 0 <= j < bc.len() implies #[trigger] bc[j] == ac[if j < i {
        j
    } else {
        j + 1
    }] by {}
    assert forall|n: int| 0 < n < b.len() && #[trigger] b[n].alive implies node_ok(b, n) by {
        assert(a[n].alive);
        assert(node_ok(a, n));
        let q = a[n].parent->0;
        assert(q != x) by {
            if q == x {
                assert(a[x as int].children@.contains(n as usize));
            }
        }
        if q == p {
            let j = choose|j: int| 0 <= j < ac.len() && ac[j] == n as usize;
            let j2 = if j < i {
                j
            } else {
                j - 1
            };
            assert(bc[j2] == n as usize);
        } else {
            assert(b[q as int].children@ == a[q as int].children@);
        }
    }
    assert forall|n: int| 0 <= n < b.len() implies #[trigger] children_ok(b, n) by {
        assert(children_ok(a, n));
        if n == p {
            assert forall|j: int| 0 <= j < bc.len() implies {
                let c = #[trigger] bc[j];
                &&& n < c < b.len()
                &&& b[c as int].alive
                &&& b[c as int].parent == Some(n as usize)
            } by {
                let j1 = if j < i {
                    j
                } else {
                    j + 1
                };
                assert(bc[j] == ac[j1]);
                assert(ac[j1] != x);
            }
            assert forall|j: int, l: int|
                0 <= j < bc.len() && 0 <= l < bc.len() && j != l implies bc[j] != bc[l] && b[(
            #[trigger] bc[j]) as int].suffix@ != b[(#[trigger] bc[l]) as int].suffix@ by {
                let j1 = if j < i {
                    j
                } else {
                    j + 1
                };
                let l1 = if l < i {
                    l
                } else {
                    l + 1
                };
                assert(bc[j] == ac[j1]);
                assert(bc[l] == ac[l1]);
                assert(a[ac[j1] as int].suffix@ != a[ac[l1] as int].suffix@);
            }
        } else {
            assert(b[n].children@ == a[n].children@);
            assert forall|j: int| 0 <= j < b[n].children@.len() implies {
                let c = #[trigger] b[n].children@[j];
                &&& n < c < b.len()
                &&& b[c as int].alive
                &&& b[c as int].parent == Some(n as usize)
            } by {
                let c = a[n].children@[j];
                assert(a[c as int].parent == Some(n as usize));
            }
            assert forall|j: int, l: int|
                0 <= j < b[n].children@.len() && 0 <= l < b[n].children@.len() && j
                    != l implies b[(#[trigger] b[n].children@[j]) as int].suffix@ != b[(
            #[trigger] b[n].children@[l]) as int].suffix@ by {
                let c = a[n].children@[j];
                let d = a[n].children@[l];
                assert(a[c as int].suffix@ != a[d as int].suffix@);
            }
        }
    }
    assert forall|n: int| 0 <= n < b.len() && !(#[trigger] b[n].alive) implies dead_ok(b[n]) by {
        if n != x {
            assert(!a[n].alive);
            assert(dead_ok(a[n]));
            assert(a1[n].matches@.len() == 0);
            if b[n].matches@.len() > 0 {
                let y = b[n].matches@[0];
                assert(b[n as usize as int].matches@.contains(y));
                assert(a1[n as usize as int].matches@.contains(y));
            }
        }
    }
    if held_but(a, x as int) {
        assert forall|n: int| 0 < n < b.len() && n != p && #[trigger] b[n].alive implies b[n].contexts@.len()
            > 0 || b[n].children@.len() > 0 by {
            assert(a[n].alive);
        }
    }
}

/// The matches stay right where a node without contexts that was in the
/// matches of exactly the nodes that it matched is taken out of all of them.
proof fn lemma_pruned_matches(a: Seq<Resource>, a1: Seq<Resource>, b: Seq<Resource>, x: usize)
    requires
        a.len() <= usize::MAX,
        matches_ok(a),
        live(a, x as int),
        a1.len() == a.len(),
        forall|m: int|
            0 <= m < a.len() ==> (#[trigger] a1[m]).name@ == a[m].name@ && a1[m].alive
                == a[m].alive && a1[m].matches@ == a[m].matches@,
        unmatched(a1, b, x),
    ensures
        matches_ok(b),
{
    assert forall|n: int, j: int| 0 <= n < b.len() && 0 <= j < b[n].matches@.len() implies {
        let m = #[trigger] b[n].matches@[j];
        live(b, m as int) && key_intersect(b[n].name@, b[m as int].name@)
    } by {
        let m = b[n].matches@[j];
        assert(n != x);
        assert(b[n as usize as int].matches@.contains(m));
        assert(a[n].matches@.contains(m));
        let j0 = choose|j0: int| 0 <= j0 < a[n].matches@.len() && a[n].matches@[j0] == m;
        assert(live(a, a[n].matches@[j0] as int));
        assert(key_intersect(a[n].name@, a[m as int].name@));
    }
    assert forall|n: int, m: int|
        live(b, n) && live(b, m) && #[trigger] key_intersect(
            b[n].name@,
            b[m].name@,
        ) implies b[n].matches@.contains(m as usize) by {
        assert(live(a, n) && live(a, m));
        assert(key_intersect(a[n].name@, a[m].name@));
        assert(a[n].matches@.contains(m as usize));
        assert(b[n as usize as int].matches@.contains(m as usize));
    }
}

/// The contexts and the ids stay right where a node without contexts is taken out.
proof fn lemma_pruned_contexts(a: Seq<Resource>, b: Seq<Resource>, fs: Seq<Face>, x: usize)
    requires
        contexts_ok(a, fs),
        mappings_ok(a, fs),
        prunable(a, x as int),
        a.len() == b.len(),
        forall|m: int|
            0 <= m < a.len() ==> (#[trigger] b[m]).contexts@ == a[m].contexts@ && (m != x
                ==> b[m].alive == a[m].alive),
    ensures
        contexts_ok(b, fs),
        mappings_ok(b, fs),
{
    crate::routing::tables::lemma_mappings_frame(a, b, fs);
}

/// The node `b` is the node `a` some time later: it has the name, the parent
/// and the contexts of `a`, and it is not live unless `a` is.
pub open(crate) spec fn stays(a: Resource, b: Resource) -> bool {
    &&& b.alive ==> a.alive
    &&& b.name@ == a.name@
    &&& b.suffix@ == a.suffix@
    &&& b.parent == a.parent
    &&& b.contexts@ == a.contexts@
}

impl Tables {
    /// The trie, the matches, the contexts and the ids are as they should be.
    /// Some resource may be held by nothing: see [`Tables::clean`].
    pub open(crate) spec fn consistent(&self) -> bool {
        &&& core_ok(self.resources@, self.faces@)
        &&& self.routes@.len() == self.resources@.len()
    }

    /// Nothing holds the resource `n`, which is not the root: it can be pruned.
    pub open(crate) spec fn can_prune(&self, n: usize) -> bool {
        prunable(self.resources@, n as int)
    }

    /// The resource `a` is the resource `n` or one of those above it.
    pub open(crate) spec fn above(&self, n: usize, a: usize) -> bool {
        is_above(self.resources@, n as int, a as int)
    }

    /// Makes the parent `p` of the node `x` forget `x`.
    fn unlink_child(&mut self, p: usize, x: usize) -> (i: Ghost<int>)
        requires
            structure_ok(old(self).resources@),
            old(self).is_live(x),
            old(self).parent(x) == Some(p),
            x != 0,
        ensures
            child_dropped(old(self).resources@, final(self).resources@, p as int, i@),
            old(self).children(p)[i@] == x,
            final(self).faces@ == old(self).faces@,
            final(self).routes@ == old(self).routes@,
    {
        let ghost a = self.resources@;
        assert(node_ok(a, x as int));
        assert(children_ok(a, p as int));
        let mut i: usize = 0;
        while i < self.resources[p].children.len() && self.resources[p].children[i] != x
            invariant
                self.resources@ == a,
                p < a.len(),
                i <= a[p as int].children@.len(),
                a[p as int].children@.contains(x),
                forall|k: int| 0 <= k < i ==> a[p as int].children@[k] != x,
            decreases a[p as int].children@.len() - i,
        {
            i = i + 1;
        }
        let _ = self.resources[p].children.remove(i);
        Ghost(i as int)
    }

    /// Makes every node forget the node `x` among its matches, and the node
    /// `x` forget its own and die.
    fn unlink_matches(&mut self, x: usize)
        requires
            matches_ok(old(self).resources@),
            old(self).is_live(x),
            old(self).routes@.len() == old(self).resources@.len(),
            forall|m: int|
                0 <= m < old(self).resources@.len() && !(#[trigger] old(self).resources@[m]).alive
                    ==> old(self).resources@[m].matches@.len() == 0,
        ensures
            unmatched(old(self).resources@, final(self).resources@, x),
            final(self).faces@ == old(self).faces@,
            final(self).routes@.len() == old(self).routes@.len(),
    {
        let ghost a = self.resources@;
        let nm = self.resources[x].matches.len();
        let mut k: usize = 0;
        assert(a[x as int].matches@.take(0) =~= Seq::empty());
        while k < nm
            invariant
                k <= nm,
                nm == a[x as int].matches@.len(),
                self.resources@.len() == a.len(),
                self.faces@ == old(self).faces@,
                self.routes@ == old(self).routes@,
                x < a.len(),
                matches_ok(a),
                forall|m: int|
                    0 <= m < a.len() ==> {
                        &&& (#[trigger] self.resources@[m]).alive == a[m].alive
                        &&& self.resources@[m].name@ == a[m].name@
                        &&& self.resources@[m].suffix@ == a[m].suffix@
                        &&& self.resources@[m].parent == a[m].parent
                        &&& self.resources@[m].contexts@ == a[m].contexts@
                        &&& self.resources@[m].children@ == a[m].children@
                    },
                self.resources@[x as int].matches@ == a[x as int].matches@,
                forall|m: usize, y: usize|
                    m < a.len() && m != x ==> (
                    #[trigger] self.resources@[m as int].matches@.contains(y) <==> (a[m as int].matches@.contains(
                        y,
                    ) && (y != x || !a[x as int].matches@.take(k as int).contains(m)))),
            decreases nm - k,
        {
            let m = self.resources[x].matches[k];
            let ghost before = self.resources@;
            proof {
                assert(a[x as int].matches@[k as int] == m);
                assert(live(a, m as int));
                assert(a[x as int].matches@.take(k + 1) =~= a[x as int].matches@.take(
                    k as int,
                ).push(m));
            }
            if m != x {
                remove_value(&mut self.resources[m].matches, x);
            }
            proof {
                let now = self.resources@;
                assert forall|q: usize, y: usize| q < a.len() && q != x implies (
                #[trigger] now[q as int].matches@.contains(y) <==> (a[q as int].matches@.contains(
                    y,
                ) && (y != x || !a[x as int].matches@.take(k + 1).contains(q)))) by {
                    lemma_push_contains(a[x as int].matches@.take(k as int), m, q);
                    if q != m {
                        assert(now[q as int] == before[q as int]);
                    } else {
                        assert(before[q as int].matches@.contains(y) <==> (a[q as int].matches@.contains(
                            y,
                        ) && (y != x || !a[x as int].matches@.take(k as int).contains(q))));
                    }
                }
            }
            k = k + 1;
        }
        self.resources[x].matches.clear();
        self.resources[x].alive = false;
        self.routes[x].clear();
        proof {
            let b = self.resources@;
            assert(a[x as int].matches@.take(nm as int) =~= a[x as int].matches@);
            assert forall|m: usize, y: usize| m < a.len() && m != x implies (
            #[trigger] b[m as int].matches@.contains(y) <==> (a[m as int].matches@.contains(y) && y
                != x)) by {
                if y == x && a[m as int].matches@.contains(x) {
                    let j = choose|j: int|
                        0 <= j < a[m as int].matches@.len() && a[m as int].matches@[j] == x;
                    assert(live(a, a[m as int].matches@[j] as int) && key_intersect(
                        a[m as int].name@,
                        a[x as int].name@,
                    ));
                    lemma_key_intersect_symmetric(a[m as int].name@, a[x as int].name@);
                    assert(a[m as int].alive);
                    assert(live(a, m as int));
                    assert(key_intersect(a[x as int].name@, a[m as int].name@));
                    assert(a[x as int].matches@.contains(m));
                }
            }
        }
    }

    /// Takes the node `x`, which nothing holds, out of the trie.
    pub(crate) fn prune(&mut self, x: usize) -> (p: usize)
        requires
            old(self).consistent(),
            old(self).can_prune(x),
        ensures
            final(self).consistent(),
            final(self).faces@ == old(self).faces@,
            old(self).parent(x) == Some(p),
            pruned(old(self).resources@, final(self).resources@, x as int),
            held_but(old(self).resources@, x as int) ==> held_but(
                final(self).resources@,
                p as int,
            ),
    {
        let ghost a = old(self).resources@;
        assert(node_ok(a, x as int));
        let p = match self.resources[x].parent {
            Some(p) => p,
            None => 0,
        };
        let i = self.unlink_child(p, x);
        let ghost a1 = self.resources@;
        proof {
            assert forall|n: int, j: int| 0 <= n < a1.len() && 0 <= j < a1[n].matches@.len() implies {
                let m = #[trigger] a1[n].matches@[j];
                live(a1, m as int) && key_intersect(a1[n].name@, a1[m as int].name@)
            } by {
                let m = a[n].matches@[j];
                assert(live(a, m as int) && key_intersect(a[n].name@, a[m as int].name@));
            }
            assert forall|n: int, m: int|
                live(a1, n) && live(a1, m) && #[trigger] key_intersect(
                    a1[n].name@,
                    a1[m].name@,
                ) implies a1[n].matches@.contains(m as usize) by {
                assert(key_intersect(a[n].name@, a[m].name@));
            }
        }
        proof {
            assert forall|m: int| 0 <= m < a1.len() && !(#[trigger] a1[m]).alive implies a1[m].matches@.len()
                == 0 by {
                assert(dead_ok(a[m]));
            }
        }
        let nres = self.resources.len();
        self.unlink_matches(x);
        proof {
            let b = self.resources@;
            assert(a.len() == nres);
            lemma_pruned_structure(a, a1, b, x, p, i@);
            lemma_pruned_matches(a, a1, b, x);
            lemma_pruned_contexts(a, b, self.faces@, x);
        }
        p
    }

    /// All the resources, the pruned ones too.
    pub open(crate) spec fn nodes(&self) -> Seq<Resource> {
        self.resources@
    }

    /// All the faces, the detached ones too.
    pub open(crate) spec fn face_seq(&self) -> Seq<Face> {
        self.faces@
    }

    /// Every resource but the root and `n` is held by a face or by a child.
    pub open(crate) spec fn all_held_but(&self, n: usize) -> bool {
        held_but(self.resources@, n as int)
    }

    /// Every resource but the root is held by a face or by a child.
    pub open(crate) spec fn all_held(&self) -> bool {
        held_ok(self.resources@)
    }

    /// What [`Tables::clean`] does to the tables `pre` at the resource `n`.
    ///
    /// Where nothing holds `n`, it is pruned, and then in turn every resource
    /// above it that nothing holds any more; the root stays. Nothing else
    /// leaves the trie, and what stays keeps its name and its contexts.
    pub open(crate) spec fn cleaned(pre: Tables, n: usize, post: Tables) -> bool {
        &&& post.consistent()
        &&& post.face_seq() == pre.face_seq()
        &&& post.spec_len() == pre.spec_len()
        &&& !pre.can_prune(n) ==> post == pre
        &&& pre.is_live(n) ==> forall|m: usize| #[trigger] pre.above(n, m) ==> !post.can_prune(m)
        &&& forall|m: int|
            0 <= m < pre.spec_len() ==> stays(pre.nodes()[m], #[trigger] post.nodes()[m])
        &&& forall|m: usize|
            pre.is_live(m) && !(#[trigger] post.is_live(m)) ==> pre.above(n, m)
                && pre.nodes()[m as int].contexts@.len() == 0
        &&& pre.all_held_but(n) ==> post.all_held()
    }

    /// Cleaning twice has the same effect as cleaning once.
    pub proof fn lemma_clean_idempotent(a: Tables, b: Tables, c: Tables, n: usize)
        requires
            Self::cleaned(a, n, b),
            Self::cleaned(b, n, c),
        ensures
            c == b,
    {
        if a.is_live(n) {
            assert(a.above(n, n));
            assert(!b.can_prune(n));
        }
    }

    /// Prunes the resource `n` if nothing holds it, and then in turn every
    /// resource above it that nothing holds any more. The root is never
    /// pruned. In well-formed tables every resource is held, so nothing is
    /// pruned and the tables stay as they are.
    pub fn clean(&mut self, n: usize)
        requires
            old(self).consistent(),
        ensures
            Self::cleaned(*old(self), n, *final(self)),
            old(self).wf() ==> *final(self) == *old(self),
    {
        let ghost a = self.resources@;
        let mut cur = n;
        let nres = self.resources.len();
        proof {
            assert forall|m: int| is_above(a, n as int, m) && m > n implies false by {
                lemma_above_bound(a, n as int, m);
            }
        }
        while cur != 0 && cur < self.resources.len() && self.resources[cur].alive
            && self.resources[cur].contexts.len() == 0 && self.resources[cur].children.len() == 0
            invariant
                self.consistent(),
                self.faces@ == old(self).faces@,
                self.resources@.len() == a.len(),
                a.len() == nres,
                a == old(self).resources@,
                old(self).consistent(),
                cur == n || old(self).can_prune(n),
                cur == n ==> *self == *old(self),
                cur != n ==> cur < a.len() && self.resources@[cur as int].alive,
                is_above(a, n as int, cur as int),
                old(self).can_prune(n) ==> a[n as int].alive,
                forall|m: int|
                    0 <= m < a.len() ==> {
                        &&& (#[trigger] self.resources@[m]).alive ==> a[m].alive
                        &&& a[m].alive && !self.resources@[m].alive ==> is_above(a, n as int, m)
                            && a[m].contexts@.len() == 0 && m > cur
                        &&& self.resources@[m].name@ == a[m].name@
                        &&& self.resources@[m].suffix@ == a[m].suffix@
                        &&& self.resources@[m].parent == a[m].parent
                        &&& self.resources@[m].contexts@ == a[m].contexts@
                    },
                forall|m: int|
                    is_above(a, n as int, m) && m > cur && 0 <= m < a.len() ==> !(
                    #[trigger] self.resources@[m]).alive,
                held_but(a, n as int) ==> held_but(self.resources@, cur as int),
            decreases cur,
        {
            let ghost before = self.resources@;
            let p = self.prune(cur);
            proof {
                let now = self.resources@;
                assert(node_ok(before, cur as int));
                assert(is_above(a, n as int, p as int)) by {
                    lemma_is_above_chain(a, n as int, cur as int, p as int);
                }
                assert forall|m: int|
                    is_above(a, n as int, m) && m > p && 0 <= m < a.len() implies !(
                #[trigger] now[m]).alive by {
                    if m < cur {
                        // m lies between p and cur on the way up from n: there is no such node
                        lemma_is_above_between(a, n as int, cur as int, m);
                    }
                }
            }
            cur = p;
        }
        proof {
            let b = self.resources@;
            if old(self).is_live(n) {
                assert forall|m: usize| #[trigger] old(self).above(n, m) implies !self.can_prune(
                    m,
                ) by {
                    if m > cur {
                        lemma_above_bound(a, n as int, m as int);
                    } else if m < cur {
                        lemma_is_above_same(a, b, n as int, m as int);
                        lemma_is_above_same(a, b, n as int, cur as int);
                        if b[cur as int].alive {
                            lemma_above_split(b, n as int, cur as int, m as int);
                            lemma_above_live(b, cur as int, m as int);
                        } else {
                            // a dead node at which the walk stopped is the node `n` itself, untouched
                            assert(cur == n);
                        }
                    }
                }
            }
            if held_but(a, n as int) {
                assert forall|m: int| 0 < m < b.len() && #[trigger] b[m].alive implies b[m].contexts@.len()
                    > 0 || b[m].children@.len() > 0 by {
                    if m == cur {
                    }
                }
            }
        }
    }
}

/// The parent of a node above `n` is above `n` too.
pub(crate) proof fn lemma_is_above_chain(rs: Seq<Resource>, n: int, c: int, p: int)
    requires
        is_above(rs, n, c),
        0 <= c < rs.len(),
        rs[c].parent matches Some(pp) && pp == p,
        0 <= p < c,
    ensures
        is_above(rs, n, p),
    decreases n,
{
    reveal_with_fuel(is_above, 2);
    if n != c {
        let q = rs[n].parent->0;
        lemma_is_above_chain(rs, q as int, c, p);
    }
}

/// A node above `n` that comes before `c`, itself above `n`, does not come
/// behind the parent of `c`.
pub(crate) proof fn lemma_is_above_between(rs: Seq<Resource>, n: int, c: int, m: int)
    requires
        is_above(rs, n, c),
        is_above(rs, n, m),
        0 <= c < rs.len(),
        rs[c].parent is Some,
        m < c,
    ensures
        m <= rs[c].parent->0,
    decreases n,
{
    reveal_with_fuel(is_above, 2);
    if n == c {
        // m is above c and is not c: it is above the parent of c, so it is at most that parent
        let p = rs[c].parent->0;
        lemma_above_bound(rs, p as int, m);
    } else if n == m {
        lemma_above_bound(rs, n, c);
    } else {
        let q = rs[n].parent->0;
        lemma_is_above_between(rs, q as int, c, m);
    }
}

/// A node above `n` does not come behind `n`, and is a node if `n` is one.
pub(crate) proof fn lemma_above_bound(rs: Seq<Resource>, n: int, m: int)
    requires
        is_above(rs, n, m),
    ensures
        m <= n,
        0 <= n < rs.len() ==> 0 <= m,
    decreases n,
{
    if n != m {
        let q = rs[n].parent->0;
        lemma_above_bound(rs, q as int, m);
    }
}

/// Of two nodes above `n`, the one that comes first is above the other.
pub(crate) proof fn lemma_above_split(rs: Seq<Resource>, n: int, c: int, m: int)
    requires
        is_above(rs, n, c),
        is_above(rs, n, m),
        m <= c,
    ensures
        is_above(rs, c, m),
    decreases n,
{
    if n == c {
    } else if n == m {
        lemma_above_bound(rs, n, c);
    } else {
        let q = rs[n].parent->0;
        lemma_above_split(rs, q as int, c, m);
    }
}

} // verus!
