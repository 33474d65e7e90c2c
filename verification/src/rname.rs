//! Resource names: slash-delimited keys with `*` and `**` wildcards.
//!
//! A key is a string of bytes. It is cut into chunks: a chunk starts at the
//! beginning of the key or at a `/`, and runs up to the next `/`. Inside a
//! chunk `*` stands for any run of bytes; a whole chunk `**` stands for any
//! run of chunks. A single `/` at the very end of a key counts for nothing.
//!
//! [`spec_intersect`] says when two keys have a concrete key in common and
//! [`intersect`] computes it without allocating.

use vstd::prelude::*;
use vstd::string::StringSliceAdditionalSpecFns;

verus! {

/// The byte `/`, which separates the chunks of a key.
pub const SLASH: u8 = 0x2f;

/// The byte `*`, the wildcard.
pub const STAR: u8 = 0x2a;

/// Position of the first `/` of `s` at or after `from`; the length of `s` if there is none.
pub open spec fn next_slash(s: Seq<u8>, from: int) -> int
    decreases s.len() - from,
{
    if from < 0 || from >= s.len() {
        s.len() as int
    } else if s[from] == SLASH {
        from
    } else {
        next_slash(s, from + 1)
    }
}

/// The first chunk of a key: everything before the first `/` that is not its first byte.
pub open spec fn head(s: Seq<u8>) -> Seq<u8> {
    s.subrange(0, next_slash(s, 1))
}

/// What follows the first chunk of a key.
pub open spec fn tail(s: Seq<u8>) -> Seq<u8> {
    s.subrange(next_slash(s, 1), s.len() as int)
}

/// Nothing is left of a key: it is empty, or only a trailing `/` remains.
pub open spec fn is_end(s: Seq<u8>) -> bool {
    s.len() == 0 || (s.len() == 1 && s[0] == SLASH)
}

/// The chunk is `**`, with or without its leading `/`.
pub open spec fn is_wild(c: Seq<u8>) -> bool {
    ||| (c.len() == 3 && c[0] == SLASH && c[1] == STAR && c[2] == STAR)
    ||| (c.len() == 2 && c[0] == STAR && c[1] == STAR)
}

/// Two chunk patterns have a string in common. Each `*` stands for any run of
/// bytes, possibly empty; every other byte stands for itself.
pub open spec fn glob_intersect(a: Seq<u8>, b: Seq<u8>) -> bool
    decreases a.len() + b.len(),
{
    if a.len() == 0 && b.len() == 0 {
        true
    } else if a.len() > 0 && a[0] == STAR {
        glob_intersect(a.drop_first(), b) || (b.len() > 0 && glob_intersect(a, b.drop_first()))
    } else if b.len() > 0 && b[0] == STAR {
        glob_intersect(a, b.drop_first()) || (a.len() > 0 && glob_intersect(a.drop_first(), b))
    } else {
        a.len() > 0 && b.len() > 0 && a[0] == b[0] && glob_intersect(
            a.drop_first(),
            b.drop_first(),
        )
    }
}

/// Two keys have a concrete key in common.
///
/// A `**` chunk either stands for nothing, or swallows one chunk of the other
/// key and stays. Two other chunks must intersect as patterns, and what
/// follows them must intersect in turn.
pub open spec fn spec_intersect(a: Seq<u8>, b: Seq<u8>) -> bool
    decreases a.len() + b.len(),
    via spec_intersect_decreases
{
    if is_end(a) && is_end(b) {
        true
    } else if !is_end(a) && is_wild(head(a)) {
        spec_intersect(tail(a), b) || (!is_end(b) && spec_intersect(a, tail(b)))
    } else if !is_end(b) && is_wild(head(b)) {
        spec_intersect(a, tail(b)) || (!is_end(a) && spec_intersect(tail(a), b))
    } else {
        !is_end(a) && !is_end(b) && glob_intersect(head(a), head(b)) && spec_intersect(
            tail(a),
            tail(b),
        )
    }
}

#[via_fn]
proof fn spec_intersect_decreases(a: Seq<u8>, b: Seq<u8>) {
    if a.len() > 0 {
        lemma_next_slash(a, 1);
    }
    if b.len() > 0 {
        lemma_next_slash(b, 1);
    }
}

/// What `next_slash` finds: no `/` before it, and a `/` at it unless it is the end.
pub proof fn lemma_next_slash(s: Seq<u8>, from: int)
    requires
        0 <= from <= s.len(),
    ensures
        from <= next_slash(s, from) <= s.len(),
        forall|k: int| from <= k < next_slash(s, from) ==> s[k] != SLASH,
        next_slash(s, from) < s.len() ==> s[next_slash(s, from)] == SLASH,
    decreases s.len() - from,
{
    if from < s.len() && s[from] != SLASH {
        lemma_next_slash(s, from + 1);
    }
}

/// A position with no `/` before it, which is the end or holds a `/`, is the one `next_slash` finds.
pub proof fn lemma_next_slash_is(s: Seq<u8>, from: int, n: int)
    requires
        0 <= from <= n <= s.len(),
        forall|k: int| from <= k < n ==> s[k] != SLASH,
        n < s.len() ==> s[n] == SLASH,
    ensures
        next_slash(s, from) == n,
    decreases n - from,
{
    if from < n {
        lemma_next_slash_is(s, from + 1, n);
    }
}

/// A `*` may stand for nothing.
proof fn lemma_glob_skip_star(a: Seq<u8>, b: Seq<u8>)
    requires
        b.len() > 0,
        b[0] == STAR,
        glob_intersect(a, b.drop_first()),
    ensures
        glob_intersect(a, b),
{
}

/// Every chunk pattern intersects itself.
pub proof fn lemma_glob_reflexive(a: Seq<u8>)
    ensures
        glob_intersect(a, a),
    decreases a.len(),
{
    if a.len() > 0 {
        lemma_glob_reflexive(a.drop_first());
        if a[0] == STAR {
            lemma_glob_skip_star(a.drop_first(), a);
        }
    }
}

/// Whether two chunk patterns intersect does not depend on their order.
pub proof fn lemma_glob_symmetric(a: Seq<u8>, b: Seq<u8>)
    ensures
        glob_intersect(a, b) == glob_intersect(b, a),
    decreases a.len() + b.len(),
{
    if a.len() > 0 {
        lemma_glob_symmetric(a.drop_first(), b);
    }
    if b.len() > 0 {
        lemma_glob_symmetric(a, b.drop_first());
    }
    if a.len() > 0 && b.len() > 0 {
        lemma_glob_symmetric(a.drop_first(), b.drop_first());
    }
}

/// A leading `**` chunk may stand for nothing.
proof fn lemma_skip_wild(a: Seq<u8>, b: Seq<u8>)
    requires
        !is_end(b),
        is_wild(head(b)),
        spec_intersect(a, tail(b)),
    ensures
        spec_intersect(a, b),
{
}

/// `intersect` is reflexive: every key intersects itself.
pub proof fn lemma_intersect_reflexive(a: Seq<u8>)
    ensures
        spec_intersect(a, a),
    decreases a.len(),
{
    if !is_end(a) {
        lemma_next_slash(a, 1);
        lemma_intersect_reflexive(tail(a));
        if is_wild(head(a)) {
            lemma_skip_wild(tail(a), a);
        } else {
            lemma_glob_reflexive(head(a));
        }
    }
}

/// `intersect` is symmetric: the order of the two keys does not matter.
pub proof fn lemma_intersect_symmetric(a: Seq<u8>, b: Seq<u8>)
    ensures
        spec_intersect(a, b) == spec_intersect(b, a),
    decreases a.len() + b.len(),
{
    if a.len() > 0 {
        lemma_next_slash(a, 1);
        lemma_intersect_symmetric(tail(a), b);
    }
    if b.len() > 0 {
        lemma_next_slash(b, 1);
        lemma_intersect_symmetric(a, tail(b));
    }
    if a.len() > 0 && b.len() > 0 {
        lemma_intersect_symmetric(tail(a), tail(b));
        lemma_glob_symmetric(head(a), head(b));
    }
}

/// The part of `c` from `i` on.
pub open spec fn from_pos(c: Seq<u8>, i: int) -> Seq<u8> {
    c.subrange(i, c.len() as int)
}

/// Whether nothing is left of the key `c` at position `i`.
fn at_end(c: &[u8], i: usize) -> (r: bool)
    requires
        i <= c.len(),
    ensures
        r == is_end(from_pos(c@, i as int)),
{
    i == c.len() || (i + 1 == c.len() && c[i] == SLASH)
}

/// The end of the chunk of `c` that starts at `i`.
fn chunk_end(c: &[u8], i: usize) -> (n: usize)
    requires
        i < c.len(),
    ensures
        i < n <= c.len(),
        n - i == next_slash(from_pos(c@, i as int), 1),
        head(from_pos(c@, i as int)) == c@.subrange(i as int, n as int),
        tail(from_pos(c@, i as int)) == from_pos(c@, n as int),
{
    let mut n: usize = i + 1;
    while n < c.len() && c[n] != SLASH
        invariant
            i < n <= c.len(),
            forall|k: int| i < k < n ==> c@[k] != SLASH,
        decreases c.len() - n,
    {
        n = n + 1;
    }
    proof {
        let s = from_pos(c@, i as int);
        lemma_next_slash_is(s, 1, n - i);
        assert(head(s) =~= c@.subrange(i as int, n as int));
        assert(tail(s) =~= from_pos(c@, n as int));
    }
    n
}

/// Whether the chunk `c[i..n]` is `**`, with or without its leading `/`.
fn wild_at(c: &[u8], i: usize, n: usize) -> (r: bool)
    requires
        i <= n <= c.len(),
    ensures
        r == is_wild(c@.subrange(i as int, n as int)),
{
    if n - i == 3 {
        c[i] == SLASH && c[i + 1] == STAR && c[i + 2] == STAR
    } else if n - i == 2 {
        c[i] == STAR && c[i + 1] == STAR
    } else {
        false
    }
}

/// Whether the chunk patterns `c1[i1..e1]` and `c2[i2..e2]` have a string in common.
fn chunk_intersect(c1: &[u8], i1: usize, e1: usize, c2: &[u8], i2: usize, e2: usize) -> (r: bool)
    requires
        i1 <= e1 <= c1.len(),
        i2 <= e2 <= c2.len(),
    ensures
        r == glob_intersect(
            c1@.subrange(i1 as int, e1 as int),
            c2@.subrange(i2 as int, e2 as int),
        ),
    decreases (e1 - i1) + (e2 - i2),
{
    let ghost a = c1@.subrange(i1 as int, e1 as int);
    let ghost b = c2@.subrange(i2 as int, e2 as int);
    proof {
        if i1 < e1 {
            assert(a.drop_first() =~= c1@.subrange(i1 + 1, e1 as int));
        }
        if i2 < e2 {
            assert(b.drop_first() =~= c2@.subrange(i2 + 1, e2 as int));
        }
    }
    if i1 == e1 && i2 == e2 {
        true
    } else if i1 < e1 && c1[i1] == STAR {
        chunk_intersect(c1, i1 + 1, e1, c2, i2, e2) || (i2 < e2 && chunk_intersect(
            c1,
            i1,
            e1,
            c2,
            i2 + 1,
            e2,
        ))
    } else if i2 < e2 && c2[i2] == STAR {
        chunk_intersect(c1, i1, e1, c2, i2 + 1, e2) || (i1 < e1 && chunk_intersect(
            c1,
            i1 + 1,
            e1,
            c2,
            i2,
            e2,
        ))
    } else {
        i1 < e1 && i2 < e2 && c1[i1] == c2[i2] && chunk_intersect(c1, i1 + 1, e1, c2, i2 + 1, e2)
    }
}

/// Whether what is left of `c1` at `i1` and what is left of `c2` at `i2` intersect.
fn res_intersect(c1: &[u8], i1: usize, c2: &[u8], i2: usize) -> (r: bool)
    requires
        i1 <= c1.len(),
        i2 <= c2.len(),
    ensures
        r == spec_intersect(from_pos(c1@, i1 as int), from_pos(c2@, i2 as int)),
    decreases (c1.len() - i1) + (c2.len() - i2),
{
    let end1 = at_end(c1, i1);
    let end2 = at_end(c2, i2);
    if end1 && end2 {
        return true;
    }
    let n1 = if i1 < c1.len() {
        chunk_end(c1, i1)
    } else {
        i1
    };
    let n2 = if i2 < c2.len() {
        chunk_end(c2, i2)
    } else {
        i2
    };
    if !end1 && wild_at(c1, i1, n1) {
        res_intersect(c1, n1, c2, i2) || (!end2 && res_intersect(c1, i1, c2, n2))
    } else if !end2 && wild_at(c2, i2, n2) {
        res_intersect(c1, i1, c2, n2) || (!end1 && res_intersect(c1, n1, c2, i2))
    } else {
        !end1 && !end2 && chunk_intersect(c1, i1, n1, c2, i2, n2) && res_intersect(c1, n1, c2, n2)
    }
}

/// Whether the keys `a` and `b`, given as bytes, intersect.
pub fn intersect_bytes(a: &[u8], b: &[u8]) -> (r: bool)
    ensures
        r == spec_intersect(a@, b@),
{
    proof {
        assert(from_pos(a@, 0) =~= a@);
        assert(from_pos(b@, 0) =~= b@);
    }
    res_intersect(a, 0, b, 0)
}

/// Whether the keys `s1` and `s2` intersect: whether some concrete key
/// matches both. The answer does not depend on the order of the two keys,
/// and a trailing `/` changes nothing.
pub fn intersect(s1: &str, s2: &str) -> (r: bool)
    ensures
        r == spec_intersect(s1.spec_bytes(), s2.spec_bytes()),
{
    intersect_bytes(s1.as_bytes(), s2.as_bytes())
}

} // verus!
