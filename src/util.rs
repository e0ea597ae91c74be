use vstd::prelude::*;

use vstd::string::StringSliceAdditionalSpecFns;
use vstd::utf8::valid_utf8;

use crate::ttlv::Error;
use crate::wire::{pad, zeros};

verus! {

/// The number of bytes a payload of `n` bytes occupies once zero-padded to a
/// multiple of eight.
pub open spec fn spec_padded_len(n: int) -> int {
    (n + 7) / 8 * 8
}

/// `s` with the bytes from `off` on replaced by `b`.
pub open spec fn splice(s: Seq<u8>, off: int, b: Seq<u8>) -> Seq<u8> {
    s.subrange(0, off) + b + s.subrange(off + b.len(), s.len() as int)
}

/// Big-endian bytes of a 16-bit value.
pub open spec fn be16(v: u16) -> Seq<u8> {
    seq![(v >> 8u16) as u8, v as u8]
}

/// Big-endian bytes of a 32-bit value.
pub open spec fn be32(v: u32) -> Seq<u8> {
    seq![(v >> 24u32) as u8, (v >> 16u32) as u8, (v >> 8u32) as u8, v as u8]
}

/// Big-endian bytes of a 64-bit value.
pub open spec fn be64(v: u64) -> Seq<u8> {
    seq![
        (v >> 56u64) as u8,
        (v >> 48u64) as u8,
        (v >> 40u64) as u8,
        (v >> 32u64) as u8,
        (v >> 24u64) as u8,
        (v >> 16u64) as u8,
        (v >> 8u64) as u8,
        v as u8,
    ]
}

/// The 16-bit value whose big-endian bytes start `s`.
pub open spec fn from_be16(s: Seq<u8>) -> u16 {
    ((s[0] as u16) << 8u16) | (s[1] as u16)
}

/// The 32-bit value whose big-endian bytes start `s`.
pub open spec fn from_be32(s: Seq<u8>) -> u32 {
    ((s[0] as u32) << 24u32) | ((s[1] as u32) << 16u32) | ((s[2] as u32) << 8u32) | (s[3] as u32)
}

/// The 64-bit value whose big-endian bytes start `s`.
pub open spec fn from_be64(s: Seq<u8>) -> u64 {
    ((s[0] as u64) << 56u64) | ((s[1] as u64) << 48u64) | ((s[2] as u64) << 40u64) | ((s[3] as u64)
        << 32u64) | ((s[4] as u64) << 24u64) | ((s[5] as u64) << 16u64) | ((s[6] as u64) << 8u64)
        | (s[7] as u64)
}

/// Reading back the big-endian bytes of a value gives the value.
pub proof fn lemma_be16_round_trip(v: u16)
    ensures
        from_be16(be16(v)) == v,
{
    let (a, b) = ((v >> 8u16) as u8, v as u8);
    assert((((a as u16) << 8u16) | (b as u16)) == v) by (bit_vector)
        requires
            a == (v >> 8u16) as u8,
            b == v as u8,
    ;
}

/// Reading back the big-endian bytes of a value gives the value.
pub proof fn lemma_be32_round_trip(v: u32)
    ensures
        from_be32(be32(v)) == v,
{
    let (a, b, c, d) = ((v >> 24u32) as u8, (v >> 16u32) as u8, (v >> 8u32) as u8, v as u8);
    assert((((a as u32) << 24u32) | ((b as u32) << 16u32) | ((c as u32) << 8u32) | (d as u32))
        == v) by (bit_vector)
        requires
            a == (v >> 24u32) as u8,
            b == (v >> 16u32) as u8,
            c == (v >> 8u32) as u8,
            d == v as u8,
    ;
}

/// Reading back the big-endian bytes of a value gives the value.
pub proof fn lemma_be64_round_trip(v: u64)
    ensures
        from_be64(be64(v)) == v,
{
    let (a, b, c, d) = ((v >> 56u64) as u8, (v >> 48u64) as u8, (v >> 40u64) as u8, (v >> 32u64) as u8);
    let (e, f, g, h) = ((v >> 24u64) as u8, (v >> 16u64) as u8, (v >> 8u64) as u8, v as u8);
    assert((((a as u64) << 56u64) | ((b as u64) << 48u64) | ((c as u64) << 40u64) | ((d as u64)
        << 32u64) | ((e as u64) << 24u64) | ((f as u64) << 16u64) | ((g as u64) << 8u64) | (h as u64))
        == v) by (bit_vector)
        requires
            a == (v >> 56u64) as u8,
            b == (v >> 48u64) as u8,
            c == (v >> 40u64) as u8,
            d == (v >> 32u64) as u8,
            e == (v >> 24u64) as u8,
            f == (v >> 16u64) as u8,
            g == (v >> 8u64) as u8,
            h == v as u8,
    ;
}

/// A signed value survives the trip through its unsigned bit pattern.
pub proof fn lemma_i32_round_trip(v: i32)
    ensures
        (#[verifier::truncate] ((#[verifier::truncate] (v as u32)) as i32)) == v,
{
    assert((#[verifier::truncate] ((#[verifier::truncate] (v as u32)) as i32)) == v) by (bit_vector);
}

/// A signed value survives the trip through its unsigned bit pattern.
pub proof fn lemma_i64_round_trip(v: i64)
    ensures
        (#[verifier::truncate] ((#[verifier::truncate] (v as u64)) as i64)) == v,
{
    assert((#[verifier::truncate] ((#[verifier::truncate] (v as u64)) as i64)) == v) by (bit_vector);
}

/// Reads a four-byte big-endian length field and returns the number of
/// bytes that a payload of that length occupies once padded.
pub fn parse_ttlv_len(buf: &[u8]) -> (r: usize)
    requires
        buf@.len() == 4,
        from_be32(buf@) + 7 <= usize::MAX,
    ensures
        r == spec_padded_len(from_be32(buf@) as int),
{
    assert(buf@.subrange(0, 4) =~= buf@);
    let len = read_be32(buf, 0);
    padded_len(len as usize)
}

/// Rounds `len` up to the next multiple of eight.
pub fn padded_len(len: usize) -> (r: usize)
    requires
        len + 7 <= usize::MAX,
    ensures
        r == spec_padded_len(len as int),
{
    (len + 7) / 8 * 8
}

/// Writes the big-endian bytes of `v` at `off`.
pub(crate) fn write_be16(buf: &mut [u8], off: usize, v: u16)
    requires
        off + 2 <= old(buf)@.len(),
    ensures
        final(buf)@ == splice(old(buf)@, off as int, be16(v)),
{
    buf[off] = (v >> 8u16) as u8;
    buf[off + 1] = v as u8;
    assert(buf@ =~= splice(old(buf)@, off as int, be16(v)));
}

/// Writes the big-endian bytes of `v` at `off`.
pub(crate) fn write_be32(buf: &mut [u8], off: usize, v: u32)
    requires
        off + 4 <= old(buf)@.len(),
    ensures
        final(buf)@ == splice(old(buf)@, off as int, be32(v)),
{
    buf[off] = (v >> 24u32) as u8;
    buf[off + 1] = (v >> 16u32) as u8;
    buf[off + 2] = (v >> 8u32) as u8;
    buf[off + 3] = v as u8;
    assert(buf@ =~= splice(old(buf)@, off as int, be32(v)));
}

/// Writes the big-endian bytes of `v` at `off`.
pub(crate) fn write_be64(buf: &mut [u8], off: usize, v: u64)
    requires
        off + 8 <= old(buf)@.len(),
    ensures
        final(buf)@ == splice(old(buf)@, off as int, be64(v)),
{
    buf[off] = (v >> 56u64) as u8;
    buf[off + 1] = (v >> 48u64) as u8;
    buf[off + 2] = (v >> 40u64) as u8;
    buf[off + 3] = (v >> 32u64) as u8;
    buf[off + 4] = (v >> 24u64) as u8;
    buf[off + 5] = (v >> 16u64) as u8;
    buf[off + 6] = (v >> 8u64) as u8;
    buf[off + 7] = v as u8;
    assert(buf@ =~= splice(old(buf)@, off as int, be64(v)));
}

/// Reads the 16-bit big-endian value at `off`.
pub(crate) fn read_be16(buf: &[u8], off: usize) -> (r: u16)
    requires
        off + 2 <= buf@.len(),
    ensures
        r == from_be16(buf@.subrange(off as int, off + 2)),
{
    ((buf[off] as u16) << 8u16) | (buf[off + 1] as u16)
}

/// Reads the 32-bit big-endian value at `off`.
pub(crate) fn read_be32(buf: &[u8], off: usize) -> (r: u32)
    requires
        off + 4 <= buf@.len(),
    ensures
        r == from_be32(buf@.subrange(off as int, off + 4)),
{
    ((buf[off] as u32) << 24u32) | ((buf[off + 1] as u32) << 16u32) | ((buf[off + 2] as u32)
        << 8u32) | (buf[off + 3] as u32)
}

/// Reads the 64-bit big-endian value at `off`.
pub(crate) fn read_be64(buf: &[u8], off: usize) -> (r: u64)
    requires
        off + 8 <= buf@.len(),
    ensures
        r == from_be64(buf@.subrange(off as int, off + 8)),
{
    ((buf[off] as u64) << 56u64) | ((buf[off + 1] as u64) << 48u64) | ((buf[off + 2] as u64)
        << 40u64) | ((buf[off + 3] as u64) << 32u64) | ((buf[off + 4] as u64) << 24u64) | ((buf[off
        + 5] as u64) << 16u64) | ((buf[off + 6] as u64) << 8u64) | (buf[off + 7] as u64)
}

/// Bounds on the padded length, and when it fits into `avail` bytes.
pub proof fn lemma_padded_len_fits(n: int, avail: int)
    requires
        0 <= n,
        0 <= avail,
    ensures
        spec_padded_len(n) <= avail <==> n <= avail / 8 * 8,
        spec_padded_len(n) >= n,
        spec_padded_len(n) < n + 8,
        spec_padded_len(n) % 8 == 0,
{
    assert(spec_padded_len(n) <= avail <==> n <= avail / 8 * 8) by (nonlinear_arith)
        requires
            0 <= n,
            0 <= avail,
    ;
    assert(spec_padded_len(n) >= n && spec_padded_len(n) < n + 8 && spec_padded_len(n) % 8 == 0)
        by (nonlinear_arith)
        requires
            0 <= n,
    ;
}

#[verifier::external_type_specification]
#[verifier::external_body]
pub struct ExUtf8Error(core::str::Utf8Error);

/// Relies on `core::str::from_utf8`: it accepts the bytes exactly when they
/// are valid UTF-8, and the text it returns is made of those same bytes.
#[verifier::external_body]
pub(crate) fn str_from_utf8<'a>(b: &'a [u8]) -> (r: Result<&'a str, core::str::Utf8Error>)
    ensures
        r is Ok <==> valid_utf8(b@),
        r matches Ok(s) ==> s.spec_bytes() == b@,
{
    core::str::from_utf8(b)
}

impl From<core::str::Utf8Error> for Error {
    fn from(_e: core::str::Utf8Error) -> Self {
        Error::CorruptUtf8
    }
}

impl vstd::std_specs::convert::FromSpecImpl<core::str::Utf8Error> for Error {
    open spec fn obeys_from_spec() -> bool {
        true
    }

    open spec fn from_spec(v: core::str::Utf8Error) -> Self {
        Error::CorruptUtf8
    }
}

/// Writing `a` and then `b` right after it is writing `a + b`, in either
/// order.
pub proof fn lemma_splice_adjacent(s: Seq<u8>, off: int, a: Seq<u8>, b: Seq<u8>)
    requires
        0 <= off,
        off + a.len() + b.len() <= s.len(),
    ensures
        splice(splice(s, off, a), off + a.len(), b) == splice(s, off, a + b),
        splice(splice(s, off + a.len(), b), off, a) == splice(s, off, a + b),
{
    assert(splice(splice(s, off, a), off + a.len(), b) =~= splice(s, off, a + b));
    assert(splice(splice(s, off + a.len(), b), off, a) =~= splice(s, off, a + b));
}

/// The big-endian bytes of zero are four zero bytes.
pub proof fn lemma_be32_zero()
    ensures
        be32(0) == zeros(4),
{
    assert((0u32 >> 24u32) as u8 == 0 && (0u32 >> 16u32) as u8 == 0 && (0u32 >> 8u32) as u8 == 0
        && 0u32 as u8 == 0) by (bit_vector);
    assert(be32(0) =~= zeros(4));
}

/// Copying a payload into a byte buffer, padded with zeros.
pub trait WriteVar: View<V = Seq<u8>> {
    /// Writes `data` at `offset` followed by the zeros that pad it to a
    /// multiple of eight; fails, leaving the buffer as it was, when the
    /// padded payload does not fit from `offset` on (or `offset` lies past
    /// the end).
    fn write_var(&mut self, data: &[u8], offset: usize) -> (r: Result<(), Error>)
        ensures
            final(self)@.len() == old(self)@.len(),
            r is Ok <==> offset + spec_padded_len(data@.len() as int) <= old(self)@.len(),
            r is Ok ==> final(self)@ == splice(old(self)@, offset as int, pad(data@)),
            r is Err ==> r == Err::<(), Error>(Error::InsufficientBufferSize) && final(self)@ == old(self)@,
    ;
}

impl WriteVar for [u8] {
    fn write_var(&mut self, data: &[u8], offset: usize) -> (r: Result<(), Error>) {
        if offset > self.len() {
            proof {
                lemma_padded_len_fits(data@.len() as int, 0);
            }
            return Err(Error::InsufficientBufferSize);
        }
        let avail = self.len() - offset;
        let data_len = data.len();
        proof {
            lemma_padded_len_fits(data_len as int, avail as int);
        }
        if data_len > avail / 8 * 8 {
            return Err(Error::InsufficientBufferSize);
        }
        let padded = padded_len(data_len);
        let ghost start = self@;
        let n = self.len();
        let mut i: usize = 0;
        while i < padded
            invariant
                data_len == data@.len(),
                padded == spec_padded_len(data_len as int),
                offset + padded <= self@.len(),
                self@.len() == start.len(),
                start.len() == n,
                0 <= i <= padded,
                forall|k: int| 0 <= k < offset || offset + i <= k < start.len() ==> self@[k] == start[k],
                forall|k: int| 0 <= k < i ==> self@[offset + k] == pad(data@)[k],
            decreases padded - i,
        {
            if i < data_len {
                self[offset + i] = data[i];
            } else {
                self[offset + i] = 0;
            }
            i = i + 1;
        }
        assert(self@ =~= splice(start, offset as int, pad(data@)));
        Ok(())
    }
}

} // verus!
