//! Keys for a face: the shortest way to name a resource to a face that
//! knows some resources by an id, and the part of a name that is free of
//! wildcards.

use vstd::prelude::*;
use crate::routing::adverts::{free_part, free_part_from};
use crate::routing::clean::{is_above, lemma_is_above_chain};
use crate::routing::face::{mapping_of, Face};
use crate::routing::names::{
    concat, fst_chunk, has_wild, key_intersect, names_intersect, spec_has_wild,
};
use crate::routing::names::{first_chunk, lemma_chunks, rest_chunks};
use crate::routing::resource::{
    child_at, descend, ctx_of, lemma_ctx_pos, ctx_pos, live, node_ok, structure_ok, Resource,
};
use crate::routing::tables::{contexts_ok, ctx_ok, ids_mapped, mappings_ok, Tables};
use crate::types::{ResourceId, NO_RESOURCE_ID};

verus! {

/// The resource that the id `rid` stands for on the face.
pub open(crate) spec fn rid_target(face: Face, rid: ResourceId) -> Option<usize> {
    mapping_of(face.mappings@, rid)
}

/// The face `f` reads the key made of `rid` and `suffix` as `name`: without
/// an id the suffix is the name; else the id stands on that face for a
/// resource whose name, followed by the suffix, is the name.
pub open(crate) spec fn resolves(
    rs: Seq<Resource>,
    fs: Seq<Face>,
    f: usize,
    rid: ResourceId,
    suffix: Seq<char>,
    name: Seq<char>,
) -> bool {
    if rid == NO_RESOURCE_ID {
        suffix == name
    } else {
        &&& f < fs.len()
        &&& rid_target(fs[f as int], rid) matches Some(q)
        &&& rs[q as int].name@ + suffix == name
    }
}

/// The deepest node that is reached from the node `a` by following chunks
/// of `s`, and what is left of `s` there.
pub open(crate) spec fn walk_end(rs: Seq<Resource>, a: int, s: Seq<char>) -> (int, Seq<char>)
    decreases s.len(),
    via walk_end_decreases
{
    if s.len() == 0 {
        (a, s)
    } else {
        match child_at(rs, a, first_chunk(s)) {
            Some(c) => walk_end(rs, c as int, rest_chunks(s)),
            None => (a, s),
        }
    }
}

#[via_fn]
proof fn walk_end_decreases(rs: Seq<Resource>, a: int, s: Seq<char>) {
    lemma_chunks(s);
}

/// The key for the face `f` that is found from the node `x` upwards, where
/// `acc` follows the name of `x`: the id that the face has for `x`, with
/// `acc`; else the key found from the parent of `x`, where the chunk of `x`
/// and `acc` follow; at the root, no id and `acc`.
pub open(crate) spec fn key_from(rs: Seq<Resource>, x: int, acc: Seq<char>, f: usize) -> (
    ResourceId,
    Seq<char>,
)
    decreases x,
{
    match ctx_of(rs[x].contexts@, f).spec_rid() {
        Some(rid) => (rid, acc),
        None => match rs[x].parent {
            Some(p) => if 0 <= x < rs.len() && p < x {
                key_from(rs, p as int, rs[x].suffix@ + acc, f)
            } else {
                (NO_RESOURCE_ID, acc)
            },
            None => (NO_RESOURCE_ID, acc),
        },
    }
}

/// The best key for the face `f` for the name of the node `prefix` followed
/// by `suffix`: the id that the face has for the deepest resource on the way
/// to that name, an id that the face gave rather than one that the broker
/// gave, and what follows the name of that resource.
pub open(crate) spec fn best_key(rs: Seq<Resource>, prefix: int, suffix: Seq<char>, f: usize) -> (
    ResourceId,
    Seq<char>,
) {
    key_from(rs, walk_end(rs, prefix, suffix).0, walk_end(rs, prefix, suffix).1, f)
}

/// Where the chunks of a name lead to a node, that node is the deepest on
/// the way, and nothing is left of the name there.
pub(crate) proof fn lemma_walk_end_found(rs: Seq<Resource>, a: int, s: Seq<char>)
    ensures
        descend(rs, a, s) matches Some(n) ==> a >= 0 && a <= usize::MAX ==> walk_end(rs, a, s).0
            == n && walk_end(rs, a, s).1.len() == 0,
    decreases s.len(),
{
    if s.len() > 0 {
        lemma_chunks(s);
        if let Some(c) = child_at(rs, a, first_chunk(s)) {
            lemma_walk_end_found(rs, c as int, rest_chunks(s));
        }
    }
}

impl Tables {
    /// The face `f` reads the key made of `rid` and `suffix` as `name`.
    pub open(crate) spec fn key_resolves(
        &self,
        f: usize,
        rid: ResourceId,
        suffix: Seq<char>,
        name: Seq<char>,
    ) -> bool {
        resolves(self.resources@, self.faces@, f, rid, suffix, name)
    }

    /// The key to use on the face `f` for the name of `prefix` followed by
    /// `suffix`: the id that the face has for the deepest resource on the way
    /// to that name, and what follows the name of that resource; no id and
    /// the whole name where the face has no id for any of them.
    pub(crate) fn get_best_key(&self, prefix: usize, suffix: &str, f: usize) -> (r: (
        ResourceId,
        String,
    ))
        requires
            structure_ok(self.resources@),
            contexts_ok(self.resources@, self.faces@),
            mappings_ok(self.resources@, self.faces@),
            self.is_live(prefix),
        ensures
            self.key_resolves(f, r.0, r.1@, self.name(prefix) + suffix@),
            (r.0, r.1@) == best_key(self.resources@, prefix as int, suffix@, f),
    {
        let ghost target = self.name(prefix) + suffix@;
        let ghost rs = self.resources@;
        // Down the trie as far as the name goes.
        let mut cur = prefix;
        let mut rest = suffix;
        let mut down = true;
        while down && !rest.is_empty()
            invariant
                structure_ok(self.resources@),
                self.is_live(cur),
                self.name(cur) + rest@ == target,
                walk_end(self.resources@, prefix as int, suffix@) == walk_end(
                    self.resources@,
                    cur as int,
                    rest@,
                ),
                !down ==> rest@.len() > 0 && child_at(
                    self.resources@,
                    cur as int,
                    first_chunk(rest@),
                ) is None,
            decreases rest@.len(), down as int,
        {
            let (chunk, r) = fst_chunk(rest);
            match self.find_child(cur, chunk) {
                Some(c) => {
                    assert(self.name(c) + r@ =~= self.name(cur) + rest@);
                    cur = c;
                    rest = r;
                },
                None => {
                    down = false;
                },
            }
        }
        // Up again to the first resource that the face has an id for.
        let mut acc = String::from_str(rest);
        let ghost deepest = cur;
        let ghost left = rest@;
        assert(walk_end(rs, prefix as int, suffix@) == (cur as int, rest@));
        loop
            invariant
                best_key(rs, prefix as int, suffix@, f) == key_from(rs, cur as int, acc@, f),
                structure_ok(self.resources@),
                contexts_ok(self.resources@, self.faces@),
                mappings_ok(self.resources@, self.faces@),
                rs == self.resources@,
                self.is_live(cur),
                self.name(cur) + acc@ == target,
                target == self.name(prefix) + suffix@,
            decreases cur,
        {
            let c = self.get_context(cur, f);
            match c.rid() {
                Some(rid) => {
                    proof {
                        let cs = rs[cur as int].contexts@;
                        let fs = self.faces@;
                        lemma_ctx_pos(cs, f);
                        let i = ctx_pos(cs, f)->0;
                        assert(ctx_ok(rs[cur as int].contexts@[i], fs));
                        assert(ids_mapped(rs[cur as int].contexts@[i], cur as int, fs));
                        assert(rs[cur as int].name@ + acc@ == target);
                    }
                    return (rid, acc);
                },
                None => {},
            }
            match self.resources[cur].parent {
                Some(p) => {
                    proof {
                        assert(cur != 0);
                        assert(node_ok(rs, cur as int));
                    }
                    let longer = concat(self.resources[cur].suffix.as_str(), acc.as_str());
                    assert(self.name(p) + longer@ =~= self.name(cur) + acc@);
                    acc = longer;
                    cur = p;
                },
                None => {
                    proof {
                        if cur != 0 {
                            assert(node_ok(rs, cur as int));
                        }
                        assert(self.name(cur) + acc@ =~= acc@);
                    }
                    return (NO_RESOURCE_ID, acc);
                },
            }
        }
    }

    /// The part of the name of the resource `n` that is free of wildcards:
    /// the deepest resource at or above `n` whose name holds no `*`, and what
    /// follows its name in the name of `n`. Where that resource is the root,
    /// there is no such part: the result is nothing and the whole name.
    pub(crate) fn nonwild_prefix(&self, n: usize) -> (r: (Option<usize>, String))
        requires
            structure_ok(self.resources@),
            self.is_live(n),
        ensures
            (r.0, r.1@) == free_part(self.resources@, n as int),
            match r.0 {
                Some(p) => p != 0 && self.is_live(p) && self.above(n, p) && !spec_has_wild(
                    self.name(p),
                ) && self.name(p) + r.1@ == self.name(n) && (forall|m: int|
                    is_above(self.resources@, n as int, m) && m > p ==> spec_has_wild(
                        #[trigger] self.resources@[m].name@,
                    )),
                None => r.1@ == self.name(n) && (forall|m: int|
                    is_above(self.resources@, n as int, m) && m > 0 ==> spec_has_wild(
                        #[trigger] self.resources@[m].name@,
                    )),
            },
    {
        let ghost rs = self.resources@;
        let mut cur = n;
        let mut ws = String::new();
        proof {
            assert(self.name(n) + ws@ =~= self.name(n));
            assert forall|m: int| is_above(rs, n as int, m) && m > n implies spec_has_wild(
                #[trigger] rs[m].name@,
            ) by {
                crate::routing::clean::lemma_above_bound(rs, n as int, m);
            }
        }
        while cur != 0 && has_wild(self.resources[cur].name.as_str())
            invariant
                structure_ok(self.resources@),
                rs == self.resources@,
                free_part(rs, n as int) == free_part_from(rs, cur as int, ws@),
                self.is_live(cur),
                self.is_live(n),
                is_above(rs, n as int, cur as int),
                self.name(cur) + ws@ == self.name(n),
                forall|m: int|
                    is_above(rs, n as int, m) && m > cur ==> spec_has_wild(#[trigger] rs[m].name@),
            decreases cur,
        {
            proof {
                assert(node_ok(rs, cur as int));
            }
            let p = match self.resources[cur].parent {
                Some(p) => p,
                None => 0,
            };
            let longer = concat(self.resources[cur].suffix.as_str(), ws.as_str());
            proof {
                assert(rs[cur as int].parent == Some(p) && p < cur);
                assert(self.name(p) + longer@ =~= self.name(cur) + ws@);
                lemma_is_above_chain(rs, n as int, cur as int, p as int);
                assert forall|m: int| is_above(rs, n as int, m) && m > p implies spec_has_wild(
                    #[trigger] rs[m].name@,
                ) by {
                    if m < cur {
                        crate::routing::clean::lemma_is_above_between(
                            rs,
                            n as int,
                            cur as int,
                            m,
                        );
                    }
                }
            }
            ws = longer;
            cur = p;
        }
        if cur == 0 {
            proof {
                assert(rs[0].name@.len() == 0);
                assert(self.name(0) + ws@ =~= ws@);
            }
            (None, self.resources[n].name.clone())
        } else {
            (Some(cur), ws)
        }
    }

    /// The live resources whose name intersects `name`, each once.
    pub(crate) fn matches_of(&self, name: &str) -> (r: Vec<usize>)
        ensures
            forall|k: int|
                0 <= k < r@.len() ==> self.is_live(#[trigger] r@[k]) && key_intersect(
                    name@,
                    self.name(r@[k]),
                ),
            forall|m: usize|
                self.is_live(m) && #[trigger] key_intersect(name@, self.name(m)) ==> r@.contains(m),
            forall|i: int, j: int| 0 <= i < j < r@.len() ==> r@[i] < r@[j],
    {
        let mut out: Vec<usize> = Vec::new();
        let mut m: usize = 0;
        while m < self.resources.len()
            invariant
                m <= self.resources@.len(),
                forall|k: int|
                    0 <= k < out@.len() ==> self.is_live(#[trigger] out@[k]) && key_intersect(
                        name@,
                        self.name(out@[k]),
                    ) && out@[k] < m,
                forall|x: usize|
                    x < m && self.is_live(x) && #[trigger] key_intersect(name@, self.name(x))
                        ==> out@.contains(x),
                forall|i: int, j: int| 0 <= i < j < out@.len() ==> out@[i] < out@[j],
            decreases self.resources@.len() - m,
        {
            if self.resources[m].alive && names_intersect(
                name,
                self.resources[m].name.as_str(),
            ) {
                let ghost before = out@;
                out.push(m);
                proof {
                    assert forall|x: usize|
                        x < m + 1 && self.is_live(x) && #[trigger] key_intersect(
                            name@,
                            self.name(x),
                        ) implies out@.contains(x) by {
                        crate::routing::tables::lemma_push_contains(before, m, x);
                    }
                }
            }
            m = m + 1;
        }
        out
    }

    /// Whether the resource `a` is the resource `n` or one of those above it.
    pub(crate) fn is_under(&self, n: usize, a: usize) -> (r: bool)
        requires
            structure_ok(self.resources@),
            self.is_live(n),
        ensures
            r == self.above(n, a),
    {
        let ghost rs = self.resources@;
        let mut cur = n;
        loop
            invariant
                structure_ok(self.resources@),
                rs == self.resources@,
                self.is_live(cur),
                is_above(rs, n as int, a as int) == is_above(rs, cur as int, a as int),
            decreases cur,
        {
            if cur == a {
                return true;
            }
            match self.resources[cur].parent {
                Some(p) => {
                    proof {
                        assert(cur != 0);
                        assert(node_ok(rs, cur as int));
                    }
                    cur = p;
                },
                None => {
                    return false;
                },
            }
        }
    }

    /// The live resources at or under the resource `from` whose name
    /// intersects `name`, each once.
    pub fn get_matches_from(&self, name: &str, from: usize) -> (r: Vec<usize>)
        requires
            self.trie_ok(),
        ensures
            forall|k: int|
                0 <= k < r@.len() ==> self.is_live(#[trigger] r@[k]) && self.above(r@[k], from)
                    && key_intersect(name@, self.name(r@[k])),
            forall|m: usize|
                self.is_live(m) && self.above(m, from) && #[trigger] key_intersect(
                    name@,
                    self.name(m),
                ) ==> r@.contains(m),
            forall|i: int, j: int| 0 <= i < j < r@.len() ==> r@[i] < r@[j],
    {
        let all = self.matches_of(name);
        let mut out: Vec<usize> = Vec::new();
        let mut i: usize = 0;
        while i < all.len()
            invariant
                i <= all@.len(),
                self.trie_ok(),
                forall|k: int|
                    0 <= k < all@.len() ==> self.is_live(#[trigger] all@[k]) && key_intersect(
                        name@,
                        self.name(all@[k]),
                    ),
                forall|a: int, b: int| 0 <= a < b < all@.len() ==> all@[a] < all@[b],
                forall|k: int|
                    0 <= k < out@.len() ==> self.is_live(#[trigger] out@[k]) && self.above(
                        out@[k],
                        from,
                    ) && key_intersect(name@, self.name(out@[k])),
                forall|k: int|
                    0 <= k < out@.len() && i < all@.len() ==> (#[trigger] out@[k]) < all@[i as int],
                forall|k: int|
                    0 <= k < i && self.above(#[trigger] all@[k], from) ==> out@.contains(all@[k]),
                forall|a: int, b: int| 0 <= a < b < out@.len() ==> out@[a] < out@[b],
            decreases all@.len() - i,
        {
            let m = all[i];
            let ghost start = out@;
            if self.is_under(m, from) {
                let ghost before = out@;
                out.push(m);
                proof {
                    assert forall|k: int|
                        0 <= k < i + 1 && self.above(#[trigger] all@[k], from) implies out@.contains(
                        all@[k],
                    ) by {
                        crate::routing::tables::lemma_push_contains(before, m, all@[k]);
                    }
                }
            }
            proof {
                assert forall|k: int| 0 <= k < out@.len() && i + 1 < all@.len() implies (
                #[trigger] out@[k]) < all@[i + 1] by {
                    assert(all@[i as int] < all@[i + 1]);
                    if k < start.len() {
                        assert(out@[k] == start[k]);
                    }
                }
                assert forall|a: int, b: int| 0 <= a < b < out@.len() implies out@[a] < out@[b] by {
                    if b < start.len() {
                        assert(out@[a] == start[a] && out@[b] == start[b]);
                    } else {
                        assert(out@[a] == start[a]);
                    }
                }
            }
            i = i + 1;
        }
        proof {
            assert forall|m: usize|
                self.is_live(m) && self.above(m, from) && #[trigger] key_intersect(
                    name@,
                    self.name(m),
                ) implies out@.contains(m) by {
                assert(all@.contains(m));
                let k = choose|k: int| 0 <= k < all@.len() && all@[k] == m;
                assert(self.above(all@[k], from));
            }
        }
        out
    }
}

} // verus!
