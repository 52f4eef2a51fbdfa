//! Big-endian integers in a byte buffer, and the replacement of a run of
//! bytes inside a buffer.

use vstd::prelude::*;
use vstd::seq_lib::lemma_flatten_concat;

verus! {

/// The 16-bit value whose most significant byte is `hi`.
pub open spec fn be16(hi: u8, lo: u8) -> u16 {
    (hi as int * 256 + lo as int) as u16
}

/// The two bytes of `v`, most significant first.
pub open spec fn u16_wire(v: u16) -> Seq<u8> {
    seq![(v as int / 256) as u8, (v as int % 256) as u8]
}

/// The 16-bit value that `buf` holds at `off`.
pub open spec fn u16_at(buf: Seq<u8>, off: int) -> u16
    recommends
        0 <= off,
        off + 2 <= buf.len(),
{
    be16(buf[off], buf[off + 1])
}

/// The 32-bit value whose bytes are `b0` to `b3`, most significant first.
pub open spec fn be32(b0: u8, b1: u8, b2: u8, b3: u8) -> u32 {
    (b0 as int * 16777216 + b1 as int * 65536 + b2 as int * 256 + b3 as int) as u32
}

/// The four bytes of `v`, most significant first.
pub open spec fn u32_wire(v: u32) -> Seq<u8> {
    seq![
        (v as int / 16777216) as u8,
        (v as int / 65536 % 256) as u8,
        (v as int / 256 % 256) as u8,
        (v as int % 256) as u8,
    ]
}

/// The 32-bit value that `buf` holds at `off`.
pub open spec fn u32_at(buf: Seq<u8>, off: int) -> u32
    recommends
        0 <= off,
        off + 4 <= buf.len(),
{
    be32(buf[off], buf[off + 1], buf[off + 2], buf[off + 3])
}

/// `buf` with the bytes from `off` on replaced by `bytes`, and the same
/// length as before.
pub open spec fn splice(buf: Seq<u8>, off: int, bytes: Seq<u8>) -> Seq<u8>
    recommends
        0 <= off,
        off + bytes.len() <= buf.len(),
{
    buf.subrange(0, off) + bytes + buf.subrange(off + bytes.len(), buf.len() as int)
}

/// Reading back the two bytes of a value gives the value.
pub proof fn lemma_u16_round_trip(v: u16)
    ensures
        u16_wire(v).len() == 2,
        u16_at(u16_wire(v), 0) == v,
{
    let hi = (v as int / 256) as u8;
    let lo = (v as int % 256) as u8;
    assert(v == (hi as int * 256 + lo as int) as u16) by (bit_vector)
        requires
            hi == (v / 256) as u8,
            lo == (v % 256) as u8,
    ;
}

/// The two bytes of the value read from a pair of bytes are that pair.
pub proof fn lemma_u16_wire_of_be16(hi: u8, lo: u8)
    ensures
        u16_wire(be16(hi, lo)) == seq![hi, lo],
{
    let v = be16(hi, lo);
    assert((v / 256) as u8 == hi && (v % 256) as u8 == lo) by (bit_vector)
        requires
            v == (hi as int * 256 + lo as int) as u16,
    ;
}

/// Reading back the four bytes of a value gives the value.
pub proof fn lemma_u32_round_trip(v: u32)
    ensures
        u32_wire(v).len() == 4,
        u32_at(u32_wire(v), 0) == v,
{
    let b0 = (v as int / 16777216) as u8;
    let b1 = (v as int / 65536 % 256) as u8;
    let b2 = (v as int / 256 % 256) as u8;
    let b3 = (v as int % 256) as u8;
    assert((v >> 24) as u8 == (v / 16777216) as u8 && ((v >> 16) & 0xff) as u8 == (v / 65536
        % 256) as u8 && ((v >> 8) & 0xff) as u8 == (v / 256 % 256) as u8 && (v & 0xff) as u8 == (v
        % 256) as u8) by (bit_vector);
    assert(v == (b0 as int * 16777216 + b1 as int * 65536 + b2 as int * 256 + b3 as int) as u32)
        by (bit_vector)
        requires
            b0 == (v >> 24) as u8,
            b1 == ((v >> 16) & 0xff) as u8,
            b2 == ((v >> 8) & 0xff) as u8,
            b3 == (v & 0xff) as u8,
    ;
}

/// The four bytes of the value read from four bytes are those four.
pub proof fn lemma_u32_wire_of_be32(b0: u8, b1: u8, b2: u8, b3: u8)
    ensures
        u32_wire(be32(b0, b1, b2, b3)) == seq![b0, b1, b2, b3],
{
    let v = be32(b0, b1, b2, b3);
    assert((v >> 24) as u8 == b0 && ((v >> 16) & 0xff) as u8 == b1 && ((v >> 8) & 0xff) as u8 == b2
        && (v & 0xff) as u8 == b3) by (bit_vector)
        requires
            v == (b0 as int * 16777216 + b1 as int * 65536 + b2 as int * 256 + b3 as int) as u32,
    ;
    assert((v >> 24) as u8 == (v / 16777216) as u8 && ((v >> 16) & 0xff) as u8 == (v / 65536
        % 256) as u8 && ((v >> 8) & 0xff) as u8 == (v / 256 % 256) as u8 && (v & 0xff) as u8 == (v
        % 256) as u8) by (bit_vector);
}

/// Replacing a run and then the run that follows it is replacing both at
/// once.
pub proof fn lemma_splice_twice(buf: Seq<u8>, off: int, first: Seq<u8>, second: Seq<u8>)
    requires
        0 <= off,
        off + first.len() + second.len() <= buf.len(),
    ensures
        splice(splice(buf, off, first), off + first.len(), second) == splice(
            buf,
            off,
            first + second,
        ),
{
}

/// The first `i + 1` parts one after the other are the first `i` parts,
/// then part `i`.
pub proof fn lemma_flatten_take_next(parts: Seq<Seq<u8>>, i: int)
    requires
        0 <= i < parts.len(),
    ensures
        parts.take(i + 1).flatten() == parts.take(i).flatten() + parts[i],
{
    assert(parts.take(i + 1) =~= parts.take(i).push(parts[i]));
    parts.take(i).lemma_flatten_push(parts[i]);
}

/// The first parts one after the other are no longer than all of them.
pub proof fn lemma_flatten_len_prefix(parts: Seq<Seq<u8>>, i: int)
    requires
        0 <= i <= parts.len(),
    ensures
        parts.take(i).flatten().len() <= parts.flatten().len(),
{
    assert(parts =~= parts.take(i) + parts.skip(i));
    lemma_flatten_concat(parts.take(i), parts.skip(i));
}

/// Reads the 16-bit big-endian value at `offset`.
pub fn read_u16(buffer: &[u8], offset: usize) -> (v: u16)
    requires
        offset + 2 <= buffer@.len(),
    ensures
        v == u16_at(buffer@, offset as int),
{
    let hi: u8 = buffer[offset];
    let lo: u8 = buffer[offset + 1];
    assert(((hi as u16) << 8 | lo as u16) == (hi as int * 256 + lo as int) as u16) by (bit_vector);
    (hi as u16) << 8 | lo as u16
}

/// Reads the 32-bit big-endian value at `offset`.
pub fn read_u32(buffer: &[u8], offset: usize) -> (v: u32)
    requires
        offset + 4 <= buffer@.len(),
    ensures
        v == u32_at(buffer@, offset as int),
{
    let b0: u8 = buffer[offset];
    let b1: u8 = buffer[offset + 1];
    let b2: u8 = buffer[offset + 2];
    let b3: u8 = buffer[offset + 3];
    assert(((b0 as u32) << 24 | (b1 as u32) << 16 | (b2 as u32) << 8 | b3 as u32) == (b0 as int
        * 16777216 + b1 as int * 65536 + b2 as int * 256 + b3 as int) as u32) by (bit_vector);
    (b0 as u32) << 24 | (b1 as u32) << 16 | (b2 as u32) << 8 | b3 as u32
}

/// Writes `v` at `offset`, most significant byte first.
pub fn write_u16(buffer: &mut [u8], offset: usize, v: u16)
    requires
        offset + 2 <= old(buffer)@.len(),
    ensures
        final(buffer)@ == splice(old(buffer)@, offset as int, u16_wire(v)),
        final(buffer)@.len() == old(buffer)@.len(),
{
    assert((v >> 8) as u8 == (v / 256) as u8 && (v & 0xff) as u8 == (v % 256) as u8)
        by (bit_vector);
    buffer[offset] = (v >> 8) as u8;
    buffer[offset + 1] = (v & 0xff) as u8;
}

/// Writes `v` at `offset`, most significant byte first.
pub fn write_u32(buffer: &mut [u8], offset: usize, v: u32)
    requires
        offset + 4 <= old(buffer)@.len(),
    ensures
        final(buffer)@ == splice(old(buffer)@, offset as int, u32_wire(v)),
        final(buffer)@.len() == old(buffer)@.len(),
{
    assert((v >> 24) as u8 == (v / 16777216) as u8 && ((v >> 16) & 0xff) as u8 == (v / 65536
        % 256) as u8 && ((v >> 8) & 0xff) as u8 == (v / 256 % 256) as u8 && (v & 0xff) as u8 == (v
        % 256) as u8) by (bit_vector);
    buffer[offset] = (v >> 24) as u8;
    buffer[offset + 1] = ((v >> 16) & 0xff) as u8;
    buffer[offset + 2] = ((v >> 8) & 0xff) as u8;
    buffer[offset + 3] = (v & 0xff) as u8;
}

/// Writes `bytes` at `offset`.
pub fn write_bytes(buffer: &mut [u8], offset: usize, bytes: &[u8])
    requires
        offset + bytes@.len() <= old(buffer)@.len(),
    ensures
        final(buffer)@ == splice(old(buffer)@, offset as int, bytes@),
        final(buffer)@.len() == old(buffer)@.len(),
{
    let ghost start = buffer@;
    let n: usize = bytes.len();
    let mut i: usize = 0;
    assert(start.len() == buffer.len());
    while i < n
        invariant
            i <= n == bytes@.len(),
            offset + n <= start.len() <= usize::MAX,
            buffer@ == splice(start, offset as int, bytes@.take(i as int)),
        decreases n - i,
    {
        buffer[offset + i] = bytes[i];
        i = i + 1;
    }
}

} // verus!
