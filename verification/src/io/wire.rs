//! The primitive encodings of the wire format, as functions on sequences of bytes.
//!
//! An encoder maps a value to its bytes. A decoder reads a value at a position
//! of a sequence and gives the value with the position behind it, or the
//! reason why there is no value at that position.

use vstd::prelude::*;
use vstd::utf8::*;

verus! {

/// Why bytes could not be decoded.
#[derive(Clone, Copy, Debug, PartialEq, Eq, Structural)]
pub enum DecodeError {
    /// The bytes end before the value does.
    OutOfBounds,
    /// A zint does not fit in 64 bits, or has more than ten continuation bytes.
    ZIntOverflow,
    /// The bytes of a string are not UTF-8.
    InvalidUtf8,
    /// The header names no message.
    UnknownMessageId(u8),
    /// The header names no declaration.
    UnknownDeclarationId(u8),
    /// The number names no subscription mode.
    UnknownSubMode(u64),
    /// The number names no query target.
    UnknownTarget(u64),
    /// The number names no consolidation mode.
    UnknownConsolidation(u64),
    /// The id of a peer is longer than such an id may be.
    PeerIdTooLong,
}

/// What a decoder gives: the value and the position behind it.
pub type Decoded<T> = Result<(T, int), DecodeError>;

/// A zint may have ten continuation bytes, so eleven bytes in all.
pub const ZINT_MAX_BYTES: usize = 11;

/// `bytes` stand in `s` at position `pos`.
#[verifier::opaque]
pub open spec fn has_at(s: Seq<u8>, pos: int, bytes: Seq<u8>) -> bool {
    &&& 0 <= pos
    &&& pos + bytes.len() <= s.len()
    &&& forall|i: int| 0 <= i < bytes.len() ==> s[pos + i] == #[trigger] bytes[i]
}

/// Where `a + b` stands, `a` stands, and `b` right behind it.
pub proof fn lemma_has_at_split(s: Seq<u8>, pos: int, a: Seq<u8>, b: Seq<u8>)
    requires
        has_at(s, pos, a + b),
    ensures
        has_at(s, pos, a),
        has_at(s, pos + a.len(), b),
{
    reveal(has_at);
    assert forall|i: int| 0 <= i < a.len() implies s[pos + i] == #[trigger] a[i] by {
        assert((a + b)[i] == a[i]);
    }
    assert forall|i: int| 0 <= i < b.len() implies s[pos + a.len() + i] == #[trigger] b[i] by {
        assert((a + b)[a.len() + i] == b[i]);
    }
}

/// Every sequence stands at position 0 of itself.
pub proof fn lemma_has_at_self(s: Seq<u8>)
    ensures
        has_at(s, 0, s),
{
    reveal(has_at);
}

/// Where bytes stand, they can be read one by one, or all at once.
pub proof fn lemma_has_at_bytes(s: Seq<u8>, pos: int, bytes: Seq<u8>)
    requires
        has_at(s, pos, bytes),
    ensures
        0 <= pos,
        pos + bytes.len() <= s.len(),
        s.subrange(pos, pos + bytes.len()) == bytes,
        forall|i: int| 0 <= i < bytes.len() ==> s[pos + i] == #[trigger] bytes[i],
{
    reveal(has_at);
    assert(s.subrange(pos, pos + bytes.len()) =~= bytes);
}

/// Where one byte stands, it is read.
pub proof fn lemma_u8_roundtrip(s: Seq<u8>, pos: int, b: u8)
    requires
        has_at(s, pos, enc_u8(b)),
    ensures
        dec_u8(s, pos) == Ok::<(u8, int), DecodeError>((b, pos + 1)),
{
    lemma_has_at_bytes(s, pos, enc_u8(b));
    assert(s[pos + 0] == enc_u8(b)[0]);
}

/// One byte.
pub open spec fn enc_u8(b: u8) -> Seq<u8> {
    seq![b]
}

/// One byte at `pos`.
pub open spec fn dec_u8(s: Seq<u8>, pos: int) -> Decoded<u8> {
    if 0 <= pos < s.len() {
        Ok((s[pos], pos + 1))
    } else {
        Err(DecodeError::OutOfBounds)
    }
}

/// A zint: seven bits per byte, the low bits first; the high bit of a byte
/// says that another byte follows.
pub open spec fn enc_zint(v: nat) -> Seq<u8>
    decreases v,
{
    if v < 128 {
        seq![v as u8]
    } else {
        seq![(v % 128 + 128) as u8] + enc_zint(v / 128)
    }
}

/// The number that the zint at `pos` stands for, where `i` bytes of it came
/// before `pos`: the low seven bits of the byte at `pos`, and 128 times what follows.
pub open spec fn zint_value(s: Seq<u8>, pos: int, i: nat) -> Result<(nat, int), DecodeError>
    decreases ZINT_MAX_BYTES - i,
{
    if !(0 <= pos < s.len()) {
        Err(DecodeError::OutOfBounds)
    } else if s[pos] < 128 {
        Ok((s[pos] as nat, pos + 1))
    } else if i + 1 >= ZINT_MAX_BYTES {
        Err(DecodeError::ZIntOverflow)
    } else {
        match zint_value(s, pos + 1, i + 1) {
            Ok((hi, p)) => Ok(((s[pos] - 128 + 128 * hi) as nat, p)),
            Err(e) => Err(e),
        }
    }
}

/// The zint at `pos`.
pub open spec fn dec_zint(s: Seq<u8>, pos: int) -> Decoded<u64> {
    match zint_value(s, pos, 0) {
        Ok((v, p)) => if v <= u64::MAX {
            Ok((v as u64, p))
        } else {
            Err(DecodeError::ZIntOverflow)
        },
        Err(e) => Err(e),
    }
}

/// Bytes: their number as a zint, then the bytes.
pub open spec fn enc_bytes(b: Seq<u8>) -> Seq<u8> {
    enc_zint(b.len()) + b
}

/// The bytes at `pos`.
pub open spec fn dec_bytes(s: Seq<u8>, pos: int) -> Decoded<Seq<u8>> {
    match dec_zint(s, pos) {
        Ok((n, p)) => if p + n <= s.len() {
            Ok((s.subrange(p, p + n), p + n))
        } else {
            Err(DecodeError::OutOfBounds)
        },
        Err(e) => Err(e),
    }
}

/// A string: its UTF-8 bytes, as bytes.
pub open spec fn enc_string(c: Seq<char>) -> Seq<u8> {
    enc_bytes(encode_utf8(c))
}

/// The string at `pos`.
pub open spec fn dec_string(s: Seq<u8>, pos: int) -> Decoded<Seq<char>> {
    match dec_bytes(s, pos) {
        Ok((b, p)) => if valid_utf8(b) {
            Ok((decode_utf8(b), p))
        } else {
            Err(DecodeError::InvalidUtf8)
        },
        Err(e) => Err(e),
    }
}

/// A list of strings: their number as a zint, then each string.
pub open spec fn enc_strings(l: Seq<Seq<char>>) -> Seq<u8> {
    enc_zint(l.len()) + enc_strings_items(l)
}

/// The strings of a list, one behind the other.
pub open spec fn enc_strings_items(l: Seq<Seq<char>>) -> Seq<u8>
    decreases l.len(),
{
    if l.len() == 0 {
        Seq::empty()
    } else {
        enc_string(l[0]) + enc_strings_items(l.drop_first())
    }
}

/// `n` strings from `pos` on.
pub open spec fn dec_strings_items(s: Seq<u8>, pos: int, n: nat) -> Decoded<Seq<Seq<char>>>
    decreases n,
{
    if n == 0 {
        Ok((Seq::empty(), pos))
    } else {
        match dec_string(s, pos) {
            Ok((x, p)) => match dec_strings_items(s, p, (n - 1) as nat) {
                Ok((rest, q)) => Ok((seq![x] + rest, q)),
                Err(e) => Err(e),
            },
            Err(e) => Err(e),
        }
    }
}

/// The list of strings at `pos`.
pub open spec fn dec_strings(s: Seq<u8>, pos: int) -> Decoded<Seq<Seq<char>>> {
    match dec_zint(s, pos) {
        Ok((n, p)) => dec_strings_items(s, p, n as nat),
        Err(e) => Err(e),
    }
}

/// A zint has at least one byte, and as many as its size asks for.
pub proof fn lemma_enc_zint_len(v: nat)
    ensures
        enc_zint(v).len() >= 1,
        v < 128 ==> enc_zint(v).len() == 1,
        v <= u64::MAX ==> enc_zint(v).len() <= 10,
    decreases v,
{
    reveal_with_fuel(enc_zint, 2);
    if v >= 128 {
        lemma_enc_zint_len(v / 128);
        if v <= u64::MAX {
            assert(pow128(10) > u64::MAX) by {
                reveal_with_fuel(pow128, 11);
            }
            lemma_enc_zint_len_bound(v, 10);
        }
    }
}

/// A number under 128 to the `k` has at most `k` bytes.
proof fn lemma_enc_zint_len_bound(v: nat, k: nat)
    requires
        k >= 1,
        v < pow128(k),
    ensures
        enc_zint(v).len() <= k,
    decreases k,
{
    reveal_with_fuel(pow128, 2);
    if v >= 128 {
        assert(k >= 2) by {
            if k == 1 {
                assert(pow128(1) == 128);
            }
        }
        lemma_enc_zint_len_bound(v / 128, (k - 1) as nat);
    }
}

/// 128 to the `k`.
pub open spec fn pow128(k: nat) -> nat
    decreases k,
{
    if k == 0 {
        1
    } else {
        128 * pow128((k - 1) as nat)
    }
}

/// Decoding gives back the number that was encoded, wherever its bytes stand.
pub proof fn lemma_zint_value_roundtrip(s: Seq<u8>, pos: int, i: nat, v: nat)
    requires
        has_at(s, pos, enc_zint(v)),
        i + enc_zint(v).len() <= ZINT_MAX_BYTES,
    ensures
        zint_value(s, pos, i) == Ok::<(nat, int), DecodeError>((v, pos + enc_zint(v).len())),
    decreases v,
{
    let e = enc_zint(v);
    lemma_enc_zint_len(v);
    lemma_has_at_bytes(s, pos, e);
    assert(s[pos + 0] == e[0]);
    if v >= 128 {
        let first = seq![(v % 128 + 128) as u8];
        lemma_has_at_split(s, pos, first, enc_zint(v / 128));
        lemma_zint_value_roundtrip(s, pos + 1, i + 1, v / 128);
    }
}

/// Decoding an encoded zint gives the zint back.
pub proof fn lemma_zint_roundtrip(s: Seq<u8>, pos: int, v: u64)
    requires
        has_at(s, pos, enc_zint(v as nat)),
    ensures
        dec_zint(s, pos) == Ok::<(u64, int), DecodeError>((v, pos + enc_zint(v as nat).len())),
{
    lemma_enc_zint_len(v as nat);
    lemma_zint_value_roundtrip(s, pos, 0, v as nat);
}

/// Decoding encoded bytes gives the bytes back.
pub proof fn lemma_bytes_roundtrip(s: Seq<u8>, pos: int, b: Seq<u8>)
    requires
        has_at(s, pos, enc_bytes(b)),
        b.len() <= u64::MAX,
    ensures
        dec_bytes(s, pos) == Ok::<(Seq<u8>, int), DecodeError>((b, pos + enc_bytes(b).len())),
{
    lemma_has_at_split(s, pos, enc_zint(b.len()), b);
    lemma_zint_roundtrip(s, pos, b.len() as u64);
    let p = pos + enc_zint(b.len()).len();
    lemma_has_at_bytes(s, p, b);
}

/// Decoding an encoded string gives the string back.
pub proof fn lemma_string_roundtrip(s: Seq<u8>, pos: int, c: Seq<char>)
    requires
        has_at(s, pos, enc_string(c)),
        encode_utf8(c).len() <= u64::MAX,
    ensures
        dec_string(s, pos) == Ok::<(Seq<char>, int), DecodeError>((c, pos + enc_string(c).len())),
{
    lemma_bytes_roundtrip(s, pos, encode_utf8(c));
    encode_utf8_valid_utf8(c);
    encode_utf8_decode_utf8(c);
}

/// Every string of the list is short enough for its length to be a zint.
pub open spec fn strings_fit(l: Seq<Seq<char>>) -> bool {
    forall|i: int| 0 <= i < l.len() ==> encode_utf8(#[trigger] l[i]).len() <= u64::MAX
}

/// Decoding the encoded strings of a list gives them back.
pub proof fn lemma_strings_items_roundtrip(s: Seq<u8>, pos: int, l: Seq<Seq<char>>)
    requires
        has_at(s, pos, enc_strings_items(l)),
        strings_fit(l),
    ensures
        dec_strings_items(s, pos, l.len()) == Ok::<(Seq<Seq<char>>, int), DecodeError>(
            (l, pos + enc_strings_items(l).len()),
        ),
    decreases l.len(),
{
    if l.len() > 0 {
        let rest = l.drop_first();
        lemma_has_at_split(s, pos, enc_string(l[0]), enc_strings_items(rest));
        lemma_string_roundtrip(s, pos, l[0]);
        assert forall|i: int| 0 <= i < rest.len() implies encode_utf8(#[trigger] rest[i]).len()
            <= u64::MAX by {
            assert(rest[i] == l[i + 1]);
        }
        lemma_strings_items_roundtrip(s, pos + enc_string(l[0]).len(), rest);
        assert(seq![l[0]] + rest =~= l);
    } else {
        assert(l =~= Seq::empty());
    }
}

/// Decoding an encoded list of strings gives the list back.
pub proof fn lemma_strings_roundtrip(s: Seq<u8>, pos: int, l: Seq<Seq<char>>)
    requires
        has_at(s, pos, enc_strings(l)),
        l.len() <= u64::MAX,
        strings_fit(l),
    ensures
        dec_strings(s, pos) == Ok::<(Seq<Seq<char>>, int), DecodeError>(
            (l, pos + enc_strings(l).len()),
        ),
{
    lemma_has_at_split(s, pos, enc_zint(l.len()), enc_strings_items(l));
    lemma_zint_roundtrip(s, pos, l.len() as u64);
    lemma_strings_items_roundtrip(s, pos + enc_zint(l.len()).len(), l);
}

/// A zint ends behind the position where it starts, and inside the bytes.
pub proof fn lemma_dec_zint_pos(s: Seq<u8>, pos: int)
    ensures
        dec_zint(s, pos) matches Ok((v, p)) ==> pos < p <= s.len(),
{
    lemma_zint_value_pos(s, pos, 0);
}

proof fn lemma_zint_value_pos(s: Seq<u8>, pos: int, i: nat)
    ensures
        zint_value(s, pos, i) matches Ok((v, p)) ==> pos < p <= s.len(),
    decreases ZINT_MAX_BYTES - i,
{
    if 0 <= pos < s.len() && s[pos] >= 128 && i + 1 < ZINT_MAX_BYTES {
        lemma_zint_value_pos(s, pos + 1, i + 1);
    }
}

/// The list `items` reads items one after the other, each with `item`.
pub open spec fn reads_items<T>(
    items: spec_fn(Seq<u8>, int, nat) -> Decoded<Seq<T>>,
    item: spec_fn(Seq<u8>, int) -> Decoded<T>,
    s: Seq<u8>,
) -> bool {
    forall|p: int, k: nat| #[trigger]
        items(s, p, k) == (if k == 0 {
            Ok::<(Seq<T>, int), DecodeError>((Seq::empty(), p))
        } else {
            match item(s, p) {
                Ok((x, p1)) => match items(s, p1, (k - 1) as nat) {
                    Ok((rest, q)) => Ok((seq![x] + rest, q)),
                    Err(e) => Err(e),
                },
                Err(e) => Err(e),
            }
        })
}

/// Reading `n` items one after the other is reading `i` of them and then
/// the others.
pub proof fn lemma_items_split<T>(
    items: spec_fn(Seq<u8>, int, nat) -> Decoded<Seq<T>>,
    item: spec_fn(Seq<u8>, int) -> Decoded<T>,
    s: Seq<u8>,
    start: int,
    i: nat,
    n: nat,
)
    requires
        i <= n,
        reads_items(items, item, s),
    ensures
        items(s, start, n) == (match items(s, start, i) {
            Ok((a, p)) => match items(s, p, (n - i) as nat) {
                Ok((b, q)) => Ok((a + b, q)),
                Err(e) => Err(e),
            },
            Err(e) => Err(e),
        }),
    decreases i,
{
    if i == 0 {
        if let Ok((b, q)) = items(s, start, n) {
            assert(Seq::<T>::empty() + b =~= b);
        }
    } else {
        if let Ok((x, p)) = item(s, start) {
            lemma_items_split(items, item, s, p, (i - 1) as nat, (n - 1) as nat);
            if let Ok((a, p2)) = items(s, p, (i - 1) as nat) {
                if let Ok((b, q)) = items(s, p2, (n - i) as nat) {
                    assert(seq![x] + (a + b) =~= (seq![x] + a) + b);
                }
            }
        }
    }
}

} // verus!
