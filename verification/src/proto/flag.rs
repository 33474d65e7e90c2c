//! Message headers: five bits of id under three bits of flags.
//!
//! A flag has a letter. What a letter means depends on the message that
//! carries it, so several letters share a bit.

use vstd::prelude::*;

verus! {

/// C: a count follows (SYNC, FRAGMENT); the key is an id alone (elsewhere).
pub const C: u8 = 0x40;

/// E: the replier is an evaluator, not a storage.
pub const E: u8 = 0x40;

/// F: final (PULL, REPLY); first fragment (FRAGMENT).
pub const F: u8 = 0x20;

/// I: info comes before the payload.
pub const I: u8 = 0x80;

/// L: locators follow (HELLO, OPEN); last fragment (FRAGMENT).
pub const L: u8 = 0x80;

/// M: a mask follows.
pub const M: u8 = 0x20;

/// N: a maximum number of samples follows.
pub const N: u8 = 0x80;

/// P: a peer id follows (CLOSE, KEEP_ALIVE); ping, not pong (PING_PONG).
pub const P: u8 = 0x20;

/// R: reliable.
pub const R: u8 = 0x20;

/// S: a subscription mode follows.
pub const S: u8 = 0x20;

/// T: a query target follows.
pub const T: u8 = 0x20;

/// W: what the sender is, or looks for, follows.
pub const W: u8 = 0x20;

/// Z: the conduit id is in the two other flag bits.
pub const Z: u8 = 0x80;

/// The id in a header: its five low bits.
#[verifier::opaque]
pub open spec fn spec_mid(header: u8) -> u8 {
    header % 32
}

/// Whether the bit `f` of a header is set, for `f` one of the three flag bits.
#[verifier::opaque]
pub open spec fn spec_has_flag(header: u8, f: u8) -> bool {
    f != 0 && (header / f) % 2 == 1
}

/// The two flag bits under the highest, as a number from 0 to 3.
#[verifier::opaque]
pub open spec fn spec_low_flags(header: u8) -> u8 {
    ((header / 32) % 4) as u8
}

/// The header with id `id` and the three flag bits as given.
#[verifier::opaque]
pub open spec fn spec_header(id: u8, f20: bool, f40: bool, f80: bool) -> u8 {
    (id + (if f20 {
        0x20int
    } else {
        0
    }) + (if f40 {
        0x40int
    } else {
        0
    }) + (if f80 {
        0x80int
    } else {
        0
    })) as u8
}

/// A header gives back the id and the flags that it was made of.
pub proof fn lemma_header(id: u8, f20: bool, f40: bool, f80: bool)
    requires
        id < 32,
    ensures
        spec_mid(spec_header(id, f20, f40, f80)) == id,
        spec_has_flag(spec_header(id, f20, f40, f80), 0x20) == f20,
        spec_has_flag(spec_header(id, f20, f40, f80), 0x40) == f40,
        spec_has_flag(spec_header(id, f20, f40, f80), 0x80) == f80,
        spec_low_flags(spec_header(id, f20, f40, f80)) == (if f20 {
            1int
        } else {
            0
        }) + (if f40 {
            2int
        } else {
            0
        }),
{
    reveal(spec_mid);
    reveal(spec_has_flag);
    reveal(spec_low_flags);
    reveal(spec_header);
}

/// The id in a header.
pub fn mid(header: u8) -> (id: u8)
    ensures
        id == spec_mid(header),
        id < 32,
{
    reveal(spec_mid);
    header % 32
}

/// Whether the flag `f` of a header is set.
pub fn has_flag(header: u8, f: u8) -> (r: bool)
    requires
        f == 0x20 || f == 0x40 || f == 0x80,
    ensures
        r == spec_has_flag(header, f),
{
    reveal(spec_has_flag);
    (header / f) % 2 == 1
}

/// The two flag bits under the highest, as a number from 0 to 3.
pub fn low_flags(header: u8) -> (r: u8)
    ensures
        r == spec_low_flags(header),
        r < 4,
{
    reveal(spec_low_flags);
    (header / 32) % 4
}

/// The header with id `id` and the three flag bits as given.
pub fn header(id: u8, f20: bool, f40: bool, f80: bool) -> (h: u8)
    requires
        id < 32,
    ensures
        h == spec_header(id, f20, f40, f80),
{
    reveal(spec_header);
    let a: u8 = if f20 {
        0x20
    } else {
        0
    };
    let b: u8 = if f40 {
        0x40
    } else {
        0
    };
    let c: u8 = if f80 {
        0x80
    } else {
        0
    };
    id + a + b + c
}

} // verus!
