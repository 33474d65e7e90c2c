//! Names of resources as strings: cutting them into chunks, comparing them,
//! and asking whether two of them intersect.

use vstd::prelude::*;
use vstd::string::StringSliceAdditionalSpecFns;
use vstd::utf8::*;
use crate::rname::{
    head, intersect, lemma_intersect_reflexive, lemma_intersect_symmetric, lemma_next_slash,
    lemma_next_slash_is, next_slash, spec_intersect, tail, SLASH, STAR,
};

verus! {

/// Two names, as sequences of characters, have a concrete key in common.
pub open spec fn key_intersect(a: Seq<char>, b: Seq<char>) -> bool {
    spec_intersect(encode_utf8(a), encode_utf8(b))
}

/// Every name intersects itself.
pub proof fn lemma_key_intersect_reflexive(a: Seq<char>)
    ensures
        key_intersect(a, a),
{
    lemma_intersect_reflexive(encode_utf8(a));
}

/// Whether two names intersect does not depend on their order.
pub proof fn lemma_key_intersect_symmetric(a: Seq<char>, b: Seq<char>)
    ensures
        key_intersect(a, b) == key_intersect(b, a),
{
    lemma_intersect_symmetric(encode_utf8(a), encode_utf8(b));
}

/// Whether the names `a` and `b` intersect.
pub fn names_intersect(a: &str, b: &str) -> (r: bool)
    ensures
        r == key_intersect(a@, b@),
{
    intersect(a, b)
}

/// The name holds a `*`.
pub open spec fn spec_has_wild(a: Seq<char>) -> bool {
    exists|i: int| 0 <= i < encode_utf8(a).len() && encode_utf8(a)[i] == STAR
}

/// Whether the name holds a `*`.
pub fn has_wild(a: &str) -> (r: bool)
    ensures
        r == spec_has_wild(a@),
{
    let bytes = a.as_bytes();
    let mut i: usize = 0;
    while i < bytes.len()
        invariant
            i <= bytes.len(),
            bytes@ == encode_utf8(a@),
            forall|k: int| 0 <= k < i ==> bytes@[k] != STAR,
        decreases bytes.len() - i,
    {
        if bytes[i] == STAR {
            return true;
        }
        i = i + 1;
    }
    false
}

/// Strings with the same bytes are the same string.
pub proof fn lemma_encode_utf8_injective(a: Seq<char>, b: Seq<char>)
    requires
        encode_utf8(a) == encode_utf8(b),
    ensures
        a == b,
{
    encode_utf8_decode_utf8(a);
    encode_utf8_decode_utf8(b);
}

/// Whether two strings are the same.
pub fn str_eq(a: &str, b: &str) -> (r: bool)
    ensures
        r == (a@ == b@),
{
    let x = a.as_bytes();
    let y = b.as_bytes();
    if x.len() != y.len() {
        return false;
    }
    let mut i: usize = 0;
    while i < x.len()
        invariant
            i <= x.len(),
            x@.len() == y@.len(),
            x@ == encode_utf8(a@),
            y@ == encode_utf8(b@),
            forall|k: int| 0 <= k < i ==> x@[k] == y@[k],
        decreases x.len() - i,
    {
        if x[i] != y[i] {
            return false;
        }
        i = i + 1;
    }
    proof {
        assert(x@ =~= y@);
        lemma_encode_utf8_injective(a@, b@);
    }
    true
}

/// The first chunk of a name: what comes before the first `/` that is not its first byte.
pub open spec fn first_chunk(name: Seq<char>) -> Seq<char> {
    decode_utf8(head(encode_utf8(name)))
}

/// What follows the first chunk of a name.
pub open spec fn rest_chunks(name: Seq<char>) -> Seq<char> {
    decode_utf8(tail(encode_utf8(name)))
}

/// A name is its first chunk and what follows it; the first chunk of a name
/// that is not empty is not empty.
pub proof fn lemma_chunks(name: Seq<char>)
    ensures
        first_chunk(name) + rest_chunks(name) == name,
        encode_utf8(first_chunk(name)) == head(encode_utf8(name)),
        encode_utf8(rest_chunks(name)) == tail(encode_utf8(name)),
        name.len() > 0 ==> first_chunk(name).len() > 0 && rest_chunks(name).len() < name.len(),
        name.len() == 0 ==> first_chunk(name).len() == 0 && rest_chunks(name).len() == 0,
{
    let b = encode_utf8(name);
    encode_utf8_valid_utf8(name);
    encode_utf8_decode_utf8(name);
    lemma_encode_utf8_empty(name);
    let n = next_slash(b, 1);
    if b.len() > 0 {
        lemma_next_slash(b, 1);
    }
    if n < b.len() {
        assert(!is_continuation_byte(b[n])) by {
            assert(0x2fu8 & 0xC0 != 0x80) by (bit_vector);
        }
        is_char_boundary_iff_not_is_continuation_byte(b, n);
    } else {
        is_char_boundary_start_end_of_seq(b);
    }
    valid_utf8_split(b, n);
    decode_utf8_split(b, n);
    decode_utf8_encode_utf8(head(b));
    decode_utf8_encode_utf8(tail(b));
    assert(first_chunk(name) + rest_chunks(name) =~= name);
    lemma_encode_utf8_empty(first_chunk(name));
    lemma_encode_utf8_empty(rest_chunks(name));
    if name.len() > 0 {
        assert(head(b).len() > 0);
    } else {
        assert(head(b).len() == 0);
        assert(tail(b).len() == 0);
    }
}

/// The first chunk of a name is one chunk: it is its own first chunk.
pub proof fn lemma_first_chunk_is_one(name: Seq<char>)
    ensures
        first_chunk(first_chunk(name)) == first_chunk(name),
{
    let b = encode_utf8(name);
    let h = head(b);
    lemma_chunks(name);
    lemma_encode_utf8_empty(name);
    if b.len() > 0 {
        lemma_next_slash(b, 1);
        if h.len() >= 1 {
            lemma_next_slash_is(h, 1, h.len() as int);
        }
        assert(head(h) =~= h);
    } else {
        assert(head(h) =~= h);
    }
    encode_utf8_decode_utf8(first_chunk(name));
}

/// The first chunk of a name and what follows it. A chunk runs up to the
/// next `/` that is not its first byte, so the chunks of `/a/b` are `/a` and
/// `/b`, and those of `a/b` are `a` and `/b`.
pub fn fst_chunk(name: &str) -> (r: (&str, &str))
    ensures
        r.0@ == first_chunk(name@),
        r.1@ == rest_chunks(name@),
        r.0@ + r.1@ == name@,
        name@.len() > 0 ==> r.0@.len() > 0 && r.1@.len() < name@.len(),
        name@.len() == 0 ==> r.0@.len() == 0 && r.1@.len() == 0,
{
    let bytes = name.as_bytes();
    let mut n: usize = if bytes.len() == 0 {
        0
    } else {
        1
    };
    while n < bytes.len() && bytes[n] != SLASH
        invariant
            n <= bytes.len(),
            bytes@.len() > 0 ==> 1 <= n,
            forall|k: int| 1 <= k < n ==> bytes@[k] != SLASH,
        decreases bytes.len() - n,
    {
        n = n + 1;
    }
    proof {
        let b = bytes@;
        lemma_encode_utf8_empty(name@);
        if b.len() > 0 {
            lemma_next_slash_is(b, 1, n as int);
        }
        lemma_chunks(name@);
        encode_utf8_valid_utf8(name@);
        if n < b.len() {
            assert(!is_continuation_byte(b[n as int])) by {
                assert(0x2fu8 & 0xC0 != 0x80) by (bit_vector);
            }
            is_char_boundary_iff_not_is_continuation_byte(b, n as int);
        } else {
            is_char_boundary_start_end_of_seq(b);
        }
    }
    let r = name.split_at(n);
    proof {
        encode_utf8_decode_utf8(r.0@);
        encode_utf8_decode_utf8(r.1@);
    }
    r
}

/// A string is empty exactly when it has no bytes.
pub proof fn lemma_encode_utf8_empty(a: Seq<char>)
    ensures
        (encode_utf8(a).len() == 0) == (a.len() == 0),
{
    if a.len() > 0 {
        assert(encode_scalar(a[0] as u32).len() > 0);
    }
}

/// The string made of `a` followed by `b`.
pub fn concat(a: &str, b: &str) -> (r: String)
    ensures
        r@ == a@ + b@,
{
    let mut s = String::from_str(a);
    s.append(b);
    s
}

} // verus!
