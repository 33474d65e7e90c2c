//! Locators: where a participant can be reached, as `proto/address`.

use vstd::prelude::*;
use vstd::string::StringSliceAdditionalSpecFns;
use vstd::utf8::*;
use crate::rname::SLASH;

verus! {

/// Why a string is no locator.
#[derive(Clone, Copy, Debug, PartialEq, Eq, Structural)]
pub enum InvalidLocator {
    /// There is no `/` between a protocol and an address.
    NoSeparator,
    /// There is nothing before the `/`.
    NoProtocol,
    /// There is nothing behind the `/`.
    NoAddress,
}

/// The position of the first `/` among the bytes, if there is one.
pub open spec fn first_slash(b: Seq<u8>) -> Option<int> {
    if exists|i: int| 0 <= i < b.len() && b[i] == SLASH {
        Some(choose|i: int| 0 <= i < b.len() && b[i] == SLASH && forall|k: int| 0 <= k < i ==> b[k] != SLASH)
    } else {
        None
    }
}

/// What [`split_locator`] gives for a string with the bytes `b`.
pub open spec fn spec_split(b: Seq<u8>) -> Result<(Seq<u8>, Seq<u8>), InvalidLocator> {
    match first_slash(b) {
        None => Err(InvalidLocator::NoSeparator),
        Some(i) => if i == 0 {
            Err(InvalidLocator::NoProtocol)
        } else if i + 1 == b.len() {
            Err(InvalidLocator::NoAddress)
        } else {
            Ok((b.subrange(0, i), b.subrange(i + 1, b.len() as int)))
        },
    }
}

/// Cuts a locator of the form `proto/address` at its first `/` into the
/// protocol and the address, neither of which may be empty.
pub fn split_locator(s: &str) -> (r: Result<(&str, &str), InvalidLocator>)
    ensures
        match spec_split(s.spec_bytes()) {
            Ok((proto, addr)) => r is Ok && r->Ok_0.0.spec_bytes() == proto && r->Ok_0.1.spec_bytes()
                == addr,
            Err(e) => r == Err::<(&str, &str), InvalidLocator>(e),
        },
{
    let bytes = s.as_bytes();
    let mut i: usize = 0;
    while i < bytes.len() && bytes[i] != SLASH
        invariant
            i <= bytes.len(),
            forall|k: int| 0 <= k < i ==> bytes@[k] != SLASH,
        decreases bytes.len() - i,
    {
        i = i + 1;
    }
    let ghost b = bytes@;
    if i == bytes.len() {
        return Err(InvalidLocator::NoSeparator);
    }
    proof {
        let j = choose|j: int| 0 <= j < b.len() && b[j] == SLASH && forall|k: int| 0 <= k < j ==> b[k] != SLASH;
        assert(b[i as int] == SLASH);
        if j < i {
            assert(b[j] != SLASH);
        }
        if i < j {
            assert(b[i as int] != SLASH);
        }
        assert(first_slash(b) == Some(i as int));
    }
    if i == 0 {
        return Err(InvalidLocator::NoProtocol);
    }
    if i + 1 == bytes.len() {
        return Err(InvalidLocator::NoAddress);
    }
    proof {
        encode_utf8_valid_utf8(s@);
        assert(!is_continuation_byte(b[i as int])) by {
            assert(0x2fu8 & 0xC0 != 0x80) by (bit_vector);
        }
        is_char_boundary_iff_not_is_continuation_byte(b, i as int);
        // What follows a `/` starts a character: a `/` is a character of its own.
        valid_utf8_split(b, i as int);
        let rest = b.subrange(i as int, b.len() as int);
        assert(rest[0] == SLASH);
        assert(is_leading_byte_width_1(rest[0])) by {
            assert(0x2fu8 & 0x80 == 0) by (bit_vector);
        }
        assert(valid_utf8(rest));
        assert(length_of_first_scalar(rest) == 1);
        assert(is_char_boundary(rest, 1)) by {
            reveal_with_fuel(is_char_boundary, 2);
        }
    }
    let (proto, tail) = s.split_at(i);
    let (_, addr) = tail.split_at(1);
    proof {
        assert(addr.spec_bytes() =~= b.subrange(i + 1, b.len() as int));
    }
    Ok((proto, addr))
}

} // verus!
