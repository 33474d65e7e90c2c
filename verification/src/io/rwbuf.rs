//! A byte buffer with a read position: writes append, reads advance.

use vstd::prelude::*;
use vstd::slice::*;
use vstd::string::StringSliceAdditionalSpecFns;
use vstd::utf8::*;
use crate::io::wire::{lemma_dec_zint_pos, Decoded, dec_bytes, dec_string, dec_u8, dec_zint, enc_bytes, enc_string, enc_u8, enc_zint, zint_value, DecodeError, ZINT_MAX_BYTES};

verus! {

/// A buffer of bytes that is written at its end and read from a position
/// that moves forward.
pub struct RWBuf {
    buf: Vec<u8>,
    r_pos: usize,
}

/// std's `String::from_utf8`: the string whose UTF-8 encoding is `bytes`, if
/// `bytes` are the UTF-8 encoding of a string, and nothing otherwise.
#[verifier::external_body]
fn string_from_utf8(bytes: Vec<u8>) -> (r: Option<String>)
    ensures
        r is Some == valid_utf8(bytes@),
        r matches Some(s) ==> s@ == decode_utf8(bytes@),
{
    String::from_utf8(bytes).ok()
}

impl RWBuf {
    /// All the bytes written so far, read or not.
    pub closed spec fn data(&self) -> Seq<u8> {
        self.buf@
    }

    /// The position of the next byte to read.
    pub closed spec fn read_pos(&self) -> int {
        self.r_pos as int
    }

    /// The bytes that are written and not yet read.
    pub open spec fn readable(&self) -> Seq<u8> {
        if self.read_pos() <= self.data().len() {
            self.data().subrange(self.read_pos(), self.data().len() as int)
        } else {
            Seq::empty()
        }
    }

    /// An empty buffer, with room for `capacity` bytes before it grows.
    pub fn new(capacity: usize) -> (b: RWBuf)
        ensures
            b.data() == Seq::<u8>::empty(),
            b.read_pos() == 0,
    {
        RWBuf { buf: Vec::with_capacity(capacity), r_pos: 0 }
    }

    /// A buffer that holds `bytes`, none of them read.
    pub fn from_vec(bytes: Vec<u8>) -> (b: RWBuf)
        ensures
            b.data() == bytes@,
            b.read_pos() == 0,
    {
        RWBuf { buf: bytes, r_pos: 0 }
    }

    /// The position of the next byte to read.
    pub fn get_read_pos(&self) -> (p: usize)
        ensures
            p == self.read_pos(),
    {
        self.r_pos
    }

    /// The number of bytes written so far.
    pub fn write_pos(&self) -> (p: usize)
        ensures
            p == self.data().len(),
    {
        self.buf.len()
    }

    /// The number of bytes that are written and not yet read.
    pub fn readable_len(&self) -> (n: usize)
        ensures
            n == self.readable().len(),
    {
        if self.r_pos <= self.buf.len() {
            self.buf.len() - self.r_pos
        } else {
            0
        }
    }

    /// The bytes that are written and not yet read.
    pub fn readable_slice(&self) -> (s: &[u8])
        ensures
            s@ == self.readable(),
    {
        let from = if self.r_pos <= self.buf.len() {
            self.r_pos
        } else {
            self.buf.len()
        };
        slice_subrange(self.buf.as_slice(), from, self.buf.len())
    }

    /// Moves the read position to `pos`, if that much was written.
    pub fn set_read_pos(&mut self, pos: usize) -> (r: Result<(), DecodeError>)
        ensures
            final(self).data() == old(self).data(),
            pos <= old(self).data().len() ==> r is Ok && final(self).read_pos() == pos,
            pos > old(self).data().len() ==> r == Err::<(), DecodeError>(DecodeError::OutOfBounds)
                && final(self).read_pos() == old(self).read_pos(),
    {
        if pos <= self.buf.len() {
            self.r_pos = pos;
            Ok(())
        } else {
            Err(DecodeError::OutOfBounds)
        }
    }

    /// Forgets everything: no bytes, nothing read.
    pub fn clear(&mut self)
        ensures
            final(self).data() == Seq::<u8>::empty(),
            final(self).read_pos() == 0,
    {
        self.r_pos = 0;
        self.buf.clear();
    }

    /// Appends one byte.
    pub fn write(&mut self, b: u8)
        ensures
            final(self).data() == old(self).data() + enc_u8(b),
            final(self).read_pos() == old(self).read_pos(),
    {
        self.buf.push(b);
        assert(self.buf@ =~= old(self).buf@ + enc_u8(b));
    }

    /// Appends `bytes` as they are.
    pub fn write_slice(&mut self, bytes: &[u8])
        ensures
            final(self).data() == old(self).data() + bytes@,
            final(self).read_pos() == old(self).read_pos(),
    {
        let mut i: usize = 0;
        while i < bytes.len()
            invariant
                i <= bytes.len(),
                self.r_pos == old(self).r_pos,
                self.buf@ == old(self).buf@ + bytes@.subrange(0, i as int),
            decreases bytes.len() - i,
        {
            self.buf.push(bytes[i]);
            i = i + 1;
            assert(self.buf@ =~= old(self).buf@ + bytes@.subrange(0, i as int));
        }
        assert(bytes@.subrange(0, i as int) =~= bytes@);
    }

    /// Appends `v` as a zint.
    pub fn write_zint(&mut self, v: u64)
        ensures
            final(self).data() == old(self).data() + enc_zint(v as nat),
            final(self).read_pos() == old(self).read_pos(),
    {
        let mut c: u64 = v;
        while c >= 128
            invariant
                self.r_pos == old(self).r_pos,
                self.buf@ + enc_zint(c as nat) == old(self).buf@ + enc_zint(v as nat),
            decreases c,
        {
            let ghost before = self.buf@;
            self.buf.push((c % 128 + 128) as u8);
            assert(self.buf@ + enc_zint((c / 128) as nat) =~= before + enc_zint(c as nat));
            c = c / 128;
        }
        let ghost before = self.buf@;
        self.buf.push(c as u8);
        assert(self.buf@ =~= before + enc_zint(c as nat));
    }

    /// Appends `bytes`: their number as a zint, then the bytes.
    pub fn write_bytes_array(&mut self, bytes: &[u8])
        ensures
            final(self).data() == old(self).data() + enc_bytes(bytes@),
            final(self).read_pos() == old(self).read_pos(),
    {
        self.write_zint(bytes.len() as u64);
        self.write_slice(bytes);
        assert(self.data() =~= old(self).data() + enc_bytes(bytes@));
    }

    /// Appends `s` as a string: its UTF-8 bytes, as bytes.
    pub fn write_string(&mut self, s: &str)
        ensures
            final(self).data() == old(self).data() + enc_string(s@),
            final(self).read_pos() == old(self).read_pos(),
    {
        self.write_bytes_array(s.as_bytes());
    }

    /// Reads one byte.
    pub fn read(&mut self) -> (r: Result<u8, DecodeError>)
        ensures
            final(self).data() == old(self).data(),
            match dec_u8(old(self).data(), old(self).read_pos()) {
                Ok((v, p)) => r == Ok::<u8, DecodeError>(v) && final(self).read_pos() == p,
                Err(e) => r == Err::<u8, DecodeError>(e) && final(self).read_pos() == old(self).read_pos(),
            },
    {
        if self.r_pos < self.buf.len() {
            let b = self.buf[self.r_pos];
            self.r_pos = self.r_pos + 1;
            Ok(b)
        } else {
            Err(DecodeError::OutOfBounds)
        }
    }

    /// Reads `n` bytes as they are.
    pub fn read_slice(&mut self, n: usize) -> (r: Result<Vec<u8>, DecodeError>)
        ensures
            final(self).data() == old(self).data(),
            old(self).read_pos() + n <= old(self).data().len() ==> r is Ok && r->Ok_0@ == old(self).data().subrange(old(self).read_pos(), old(self).read_pos() + n) && final(self).read_pos() == old(self).read_pos() + n,
            old(self).read_pos() + n > old(self).data().len() ==> r == Err::<
                Vec<u8>,
                DecodeError,
            >(DecodeError::OutOfBounds) && final(self).read_pos() == old(self).read_pos(),
    {
        if self.r_pos <= self.buf.len() && n <= self.buf.len() - self.r_pos {
            let out = slice_to_vec(slice_subrange(self.buf.as_slice(), self.r_pos, self.r_pos + n));
            self.r_pos = self.r_pos + n;
            Ok(out)
        } else {
            Err(DecodeError::OutOfBounds)
        }
    }

    /// Reads a zint.
    pub fn read_zint(&mut self) -> (r: Result<u64, DecodeError>)
        ensures
            final(self).data() == old(self).data(),
            match dec_zint(old(self).data(), old(self).read_pos()) {
                Ok((v, p)) => r == Ok::<u64, DecodeError>(v) && final(self).read_pos() == p,
                Err(e) => r == Err::<u64, DecodeError>(e) && final(self).read_pos() == old(self).read_pos(),
            },
    {
        let ghost s = self.buf@;
        let start = self.r_pos;
        // Find the last byte of the zint.
        let mut end: usize = start;
        loop
            invariant
                start <= end,
                end - start < ZINT_MAX_BYTES,
                self.buf@ == s,
                self.r_pos == start,
                forall|k: int| start <= k < end ==> s[k] >= 128,
            ensures
                start <= end < s.len(),
                end - start < ZINT_MAX_BYTES,
                s[end as int] < 128,
                forall|k: int| start <= k < end ==> s[k] >= 128,
            decreases ZINT_MAX_BYTES - (end - start),
        {
            if end >= self.buf.len() {
                proof {
                    lemma_zint_value_fails(s, start as int, end as int, DecodeError::OutOfBounds);
                }
                return Err(DecodeError::OutOfBounds);
            }
            if self.buf[end] < 128 {
                break ;
            }
            if end - start + 1 >= ZINT_MAX_BYTES {
                proof {
                    lemma_zint_value_fails(s, start as int, end as int, DecodeError::ZIntOverflow);
                }
                return Err(DecodeError::ZIntOverflow);
            }
            end = end + 1;
        }
        // Add the bytes up from the last one back to the first.
        let mut v: u64 = self.buf[end] as u64;
        let mut k: usize = end;
        while k > start
            invariant
                start <= k <= end < s.len(),
                end - start < ZINT_MAX_BYTES,
                self.buf@ == s,
                self.r_pos == start,
                s[end as int] < 128,
                forall|j: int| start <= j < end ==> s[j] >= 128,
                zint_value(s, k as int, (k - start) as nat) == Ok::<(nat, int), DecodeError>(
                    (v as nat, end + 1),
                ),
            decreases k,
        {
            k = k - 1;
            let low = (self.buf[k] - 128) as u64;
            if v > (u64::MAX - low) / 128 {
                proof {
                    lemma_zint_value_grows(s, start as int, k as int);
                }
                return Err(DecodeError::ZIntOverflow);
            }
            v = low + 128 * v;
        }
        assert(end < self.buf.len());
        self.r_pos = end + 1;
        Ok(v)
    }

    /// Reads bytes: their number as a zint, then the bytes.
    pub fn read_bytes_array(&mut self) -> (r: Result<Vec<u8>, DecodeError>)
        ensures
            final(self).data() == old(self).data(),
            match dec_bytes(old(self).data(), old(self).read_pos()) {
                Ok((v, p)) => r is Ok && r->Ok_0@ == v && final(self).read_pos() == p,
                Err(e) => r == Err::<Vec<u8>, DecodeError>(e),
            },
    {
        proof {
            lemma_dec_zint_pos(self.data(), self.read_pos());
        }
        let n = self.read_zint()?;
        if n > (self.buf.len() - self.r_pos) as u64 {
            return Err(DecodeError::OutOfBounds);
        }
        self.read_slice(n as usize)
    }

    /// Reads a string: bytes that are the UTF-8 encoding of a string.
    pub fn read_string(&mut self) -> (r: Result<String, DecodeError>)
        ensures
            final(self).data() == old(self).data(),
            match dec_string(old(self).data(), old(self).read_pos()) {
                Ok((v, p)) => r is Ok && r->Ok_0@ == v && final(self).read_pos() == p,
                Err(e) => r == Err::<String, DecodeError>(e),
            },
    {
        let bytes = self.read_bytes_array()?;
        match string_from_utf8(bytes) {
            Some(s) => Ok(s),
            None => Err(DecodeError::InvalidUtf8),
        }
    }
}

/// What a read does: the bytes stay; where the decoder `d` finds a value, the
/// read gives a value that holds the same and moves behind it; where `d`
/// fails, the read fails in the same way.
pub open spec fn reads<T: DeepView>(
    pre: RWBuf,
    post: RWBuf,
    r: Result<T, DecodeError>,
    d: Decoded<T::V>,
) -> bool {
    &&& post.data() == pre.data()
    &&& match d {
        Ok((v, p)) => r is Ok && r->Ok_0.deep_view() == v && post.read_pos() == p,
        Err(e) => r is Err && r->Err_0 == e,
    }
}

/// A zint whose bytes from `start` to `end` all ask for more has no value
/// when the bytes end at `end`, or when no further byte is allowed there.
proof fn lemma_zint_value_fails(s: Seq<u8>, start: int, end: int, e: DecodeError)
    requires
        0 <= start <= end,
        end - start < ZINT_MAX_BYTES,
        forall|k: int| start <= k < end ==> s[k] >= 128,
        e == DecodeError::OutOfBounds ==> end >= s.len(),
        e == DecodeError::ZIntOverflow ==> end < s.len() && s[end] >= 128 && end - start + 1
            >= ZINT_MAX_BYTES,
        e == DecodeError::OutOfBounds || e == DecodeError::ZIntOverflow,
    ensures
        dec_zint(s, start) == Err::<(u64, int), DecodeError>(e),
{
    lemma_zint_value_fails_from(s, start, start, end, e);
}

proof fn lemma_zint_value_fails_from(s: Seq<u8>, start: int, k: int, end: int, e: DecodeError)
    requires
        0 <= start <= k <= end,
        end - start < ZINT_MAX_BYTES,
        forall|j: int| start <= j < end ==> s[j] >= 128,
        e == DecodeError::OutOfBounds ==> end >= s.len(),
        e == DecodeError::ZIntOverflow ==> end < s.len() && s[end] >= 128 && end - start + 1
            >= ZINT_MAX_BYTES,
        e == DecodeError::OutOfBounds || e == DecodeError::ZIntOverflow,
    ensures
        zint_value(s, k, (k - start) as nat) == Err::<(nat, int), DecodeError>(e),
    decreases end - k,
{
    if k < end {
        lemma_zint_value_fails_from(s, start, k + 1, end, e);
    }
}

/// The value of a zint is at least 128 times the value of what follows its first byte,
/// so a zint whose rest does not fit in 64 bits does not fit either.
proof fn lemma_zint_value_grows(s: Seq<u8>, start: int, k: int)
    requires
        0 <= start <= k < s.len(),
        k + 1 - start < ZINT_MAX_BYTES,
        forall|j: int| start <= j <= k ==> s[j] >= 128,
        zint_value(s, k + 1, (k + 1 - start) as nat) is Ok,
        (s[k] - 128) + 128 * zint_value(s, k + 1, (k + 1 - start) as nat)->Ok_0.0 > u64::MAX,
    ensures
        dec_zint(s, start) == Err::<(u64, int), DecodeError>(DecodeError::ZIntOverflow),
    decreases k - start,
{
    if k > start {
        lemma_zint_value_grows(s, start, k - 1);
    }
}

} // verus!
