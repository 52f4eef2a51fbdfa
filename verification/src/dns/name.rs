//! Domain names on the wire: each label as a length byte and its bytes, then
//! a zero byte.
//!
//! A name is held as the sequence of its labels, without the empty label
//! that ends it on the wire. A label is text; its bytes on the wire are its
//! UTF-8 encoding, at least one byte and at most 63. A length byte above 63
//! is never a label: the two highest bits mark a compression pointer, which
//! this codec reports as an error instead of following it.

use crate::dns::bytes::{
    lemma_flatten_len_prefix, lemma_flatten_take_next, lemma_splice_twice, splice, write_bytes,
};
use crate::dns::error::{DecodeError, EncodeError};
use crate::dns::parse::{
    lemma_all_before, lemma_nothing_before, lemma_one_more_before, with_items_before, Parsed,
};
use vstd::prelude::*;
use vstd::slice::{slice_subrange, slice_to_vec};
use vstd::utf8::{
    decode_utf8, decode_utf8_encode_utf8, encode_utf8, encode_utf8_decode_utf8,
    encode_utf8_valid_utf8, valid_utf8,
};

verus! {

/// The most bytes that a label may have.
pub const MAX_LABEL_LEN: usize = 63;

/// The labels of a name as sequences of characters.
pub open spec fn name_view(name: Seq<String>) -> Seq<Seq<char>> {
    name.map_values(|label: String| label@)
}

/// A label has at least one byte and at most 63.
pub open spec fn label_wf(label: Seq<char>) -> bool {
    1 <= encode_utf8(label).len() <= MAX_LABEL_LEN
}

/// Every label of the name is well formed.
pub open spec fn name_wf(name: Seq<Seq<char>>) -> bool {
    forall|i: int| 0 <= i < name.len() ==> label_wf(#[trigger] name[i])
}

/// A label on the wire: its length in bytes, then its bytes.
pub open spec fn label_wire(label: Seq<char>) -> Seq<u8> {
    seq![encode_utf8(label).len() as u8] + encode_utf8(label)
}

/// The wire form of each label of a name.
pub open spec fn label_wires(name: Seq<Seq<char>>) -> Seq<Seq<u8>> {
    name.map_values(|label: Seq<char>| label_wire(label))
}

/// A name on the wire: its labels one after the other, then the zero byte
/// that ends it.
pub open spec fn name_wire(name: Seq<Seq<char>>) -> Seq<u8> {
    label_wires(name).flatten() + seq![0u8]
}

/// Reads a name from `buf` at `off`.
///
/// The first failure met from `off` on is reported: the buffer ends where a
/// length byte or a label's bytes are due (`TruncatedBuffer`), or a length
/// byte is above 63 or a label's bytes are not UTF-8 (`InvalidLabel`).
pub open spec fn parse_name(buf: Seq<u8>, off: int) -> Parsed<Seq<Seq<char>>>
    decreases buf.len() - off,
{
    if off < 0 || off >= buf.len() {
        Err(DecodeError::TruncatedBuffer)
    } else if buf[off] == 0 {
        Ok((Seq::empty(), off + 1))
    } else if buf[off] > MAX_LABEL_LEN {
        Err(DecodeError::InvalidLabel)
    } else if off + 1 + buf[off] > buf.len() {
        Err(DecodeError::TruncatedBuffer)
    } else if !valid_utf8(buf.subrange(off + 1, off + 1 + buf[off])) {
        Err(DecodeError::InvalidLabel)
    } else {
        with_items_before(
            seq![decode_utf8(buf.subrange(off + 1, off + 1 + buf[off]))],
            parse_name(buf, off + 1 + buf[off]),
        )
    }
}

/// A name with a label in front: on the wire, that label and then the
/// name.
pub proof fn lemma_name_wire_prepend(label: Seq<char>, rest: Seq<Seq<char>>)
    ensures
        name_wire(seq![label] + rest) == label_wire(label) + name_wire(rest),
{
    let name = seq![label] + rest;
    assert(label_wires(name).drop_first() =~= label_wires(rest));
}

/// Reading where a well-formed name stands on the wire gives that name and
/// the offset just past it, whatever the buffer holds around it.
pub proof fn lemma_parse_name_of_wire(buf: Seq<u8>, off: int, name: Seq<Seq<char>>)
    requires
        name_wf(name),
        0 <= off,
        off + name_wire(name).len() <= buf.len(),
        buf.subrange(off, off + name_wire(name).len()) == name_wire(name),
    ensures
        parse_name(buf, off) == Ok::<_, DecodeError>((name, off + name_wire(name).len())),
    decreases name.len(),
{
    let wire = name_wire(name);
    assert(buf[off] == buf.subrange(off, off + wire.len())[0]);
    if name.len() == 0 {
        assert(name =~= Seq::<Seq<char>>::empty());
    } else {
        let label = name[0];
        let rest = name.drop_first();
        let bytes = encode_utf8(label);
        let next = off + 1 + bytes.len();
        assert(name =~= seq![label] + rest);
        lemma_name_wire_prepend(label, rest);
        assert(buf.subrange(off + 1, next) =~= bytes) by {
            assert forall|i: int| 0 <= i < bytes.len() implies buf[off + 1 + i] == bytes[i] by {
                assert(buf[off + 1 + i] == buf.subrange(off, off + wire.len())[1 + i]);
            }
        }
        encode_utf8_valid_utf8(label);
        encode_utf8_decode_utf8(label);
        assert(buf.subrange(next, next + name_wire(rest).len()) =~= name_wire(rest)) by {
            assert forall|i: int| 0 <= i < name_wire(rest).len() implies buf[next + i]
                == name_wire(rest)[i] by {
                assert(buf[next + i] == buf.subrange(off, off + wire.len())[1 + bytes.len() + i]);
            }
        }
        lemma_parse_name_of_wire(buf, next, rest);
    }
}

/// A name that was read is well formed, ends inside the buffer, and the
/// bytes it was read from are its wire form.
pub proof fn lemma_parse_name_sound(buf: Seq<u8>, off: int)
    requires
        parse_name(buf, off) is Ok,
    ensures
        ({
            let (name, end) = parse_name(buf, off)->Ok_0;
            &&& name_wf(name)
            &&& 0 <= off < end <= buf.len()
            &&& buf.subrange(off, end) == name_wire(name)
        }),
    decreases buf.len() - off,
{
    if buf[off] != 0 {
        let next = off + 1 + buf[off];
        let bytes = buf.subrange(off + 1, next);
        let label = decode_utf8(bytes);
        lemma_parse_name_sound(buf, next);
        let rest = parse_name(buf, next)->Ok_0.0;
        decode_utf8_encode_utf8(bytes);
        lemma_name_wire_prepend(label, rest);
    }
}

/// Turns the bytes of a label into text with `String::from_utf8`.
///
/// Believed of it: it succeeds on the byte sequences that are valid UTF-8
/// and on no others, and the string it gives has exactly the bytes it was
/// given.
#[verifier::external_body]
fn label_text(bytes: Vec<u8>) -> (text: Option<String>)
    ensures
        text is Some <==> valid_utf8(bytes@),
        text matches Some(s) ==> encode_utf8(s@) == bytes@,
{
    match String::from_utf8(bytes) {
        Ok(s) => Some(s),
        Err(_) => None,
    }
}

/// Whether every label of the name has at least one byte and at most 63.
pub fn is_valid_name(name: &Vec<String>) -> (b: bool)
    ensures
        b == name_wf(name_view(name@)),
{
    let mut i: usize = 0;
    while i < name.len()
        invariant
            i <= name.len(),
            forall|k: int| 0 <= k < i ==> label_wf(#[trigger] name_view(name@)[k]),
        decreases name.len() - i,
    {
        let n: usize = name[i].as_str().as_bytes().len();
        if n == 0 || n > MAX_LABEL_LEN {
            assert(!label_wf(name_view(name@)[i as int]));
            return false;
        }
        i = i + 1;
    }
    true
}

/// The number of bytes that the name takes on the wire, if that is at most
/// `limit`.
pub fn name_len_within(name: &Vec<String>, limit: usize) -> (len: Option<usize>)
    ensures
        match len {
            Some(n) => n == name_wire(name_view(name@)).len() && n <= limit,
            None => name_wire(name_view(name@)).len() > limit,
        },
{
    let ghost wires = label_wires(name_view(name@));
    let mut total: usize = 0;
    let mut i: usize = 0;
    while i < name.len()
        invariant
            i <= name.len(),
            wires == label_wires(name_view(name@)),
            total == wires.take(i as int).flatten().len(),
            total <= limit,
        decreases name.len() - i,
    {
        let n: usize = name[i].as_str().as_bytes().len();
        proof {
            lemma_flatten_take_next(wires, i as int);
            lemma_flatten_len_prefix(wires, i + 1);
        }
        if n >= limit - total {
            return None;
        }
        total = total + 1 + n;
        i = i + 1;
    }
    assert(wires.take(i as int) =~= wires);
    if total >= limit {
        return None;
    }
    Some(total + 1)
}

/// Writes the name at `offset` into a buffer that has room for it, and
/// returns the offset just past it.
pub(crate) fn write_name(name: &Vec<String>, buffer: &mut [u8], offset: usize) -> (end: usize)
    requires
        name_wf(name_view(name@)),
        offset + name_wire(name_view(name@)).len() <= old(buffer)@.len(),
    ensures
        end == offset + name_wire(name_view(name@)).len(),
        final(buffer)@ == splice(old(buffer)@, offset as int, name_wire(name_view(name@))),
        final(buffer)@.len() == old(buffer)@.len(),
{
    let ghost start = buffer@;
    let ghost labels = name_view(name@);
    let ghost wires = label_wires(labels);
    let mut pos: usize = offset;
    let mut i: usize = 0;
    assert(start.len() == buffer.len());
    while i < name.len()
        invariant
            i <= name.len(),
            labels == name_view(name@),
            wires == label_wires(labels),
            name_wf(labels),
            offset + name_wire(labels).len() <= start.len() <= usize::MAX,
            pos == offset + wires.take(i as int).flatten().len(),
            buffer@ == splice(start, offset as int, wires.take(i as int).flatten()),
        decreases name.len() - i,
    {
        let bytes: &[u8] = name[i].as_str().as_bytes();
        let n: usize = bytes.len();
        let ghost done = wires.take(i as int).flatten();
        proof {
            lemma_flatten_take_next(wires, i as int);
            lemma_flatten_len_prefix(wires, i + 1);
        }
        buffer[pos] = n as u8;
        write_bytes(buffer, pos + 1, bytes);
        proof {
            lemma_splice_twice(start, offset as int, done + seq![n as u8], bytes@);
        }
        pos = pos + 1 + n;
        i = i + 1;
    }
    assert(wires.take(i as int) =~= wires);
    buffer[pos] = 0;
    pos + 1
}

/// Encodes the name at `offset` and returns the offset just past it.
/// Decoding the buffer at `offset` then gives the name back.
///
/// Fails, and leaves the buffer as it was, when the buffer has too few
/// bytes from `offset` on.
pub fn pack_name(name: &Vec<String>, buffer: &mut [u8], offset: usize) -> (r: Result<
    usize,
    EncodeError,
>)
    requires
        name_wf(name_view(name@)),
    ensures
        match r {
            Ok(end) => {
                &&& end == offset + name_wire(name_view(name@)).len()
                &&& end <= old(buffer)@.len()
                &&& final(buffer)@ == splice(
                    old(buffer)@,
                    offset as int,
                    name_wire(name_view(name@)),
                )
                &&& parse_name(final(buffer)@, offset as int) == Ok::<_, DecodeError>(
                    (name_view(name@), end as int),
                )
            },
            Err(e) => {
                &&& e == EncodeError::BufferTooSmall
                &&& offset + name_wire(name_view(name@)).len() > old(buffer)@.len()
                &&& final(buffer)@ == old(buffer)@
            },
        },
{
    if offset > buffer.len() {
        return Err(EncodeError::BufferTooSmall);
    }
    match name_len_within(name, buffer.len() - offset) {
        None => Err(EncodeError::BufferTooSmall),
        Some(_) => {
            let end: usize = write_name(name, buffer, offset);
            proof {
                let wire = name_wire(name_view(name@));
                assert(buffer@.subrange(offset as int, end as int) =~= wire);
                lemma_parse_name_of_wire(buffer@, offset as int, name_view(name@));
            }
            Ok(end)
        },
    }
}

/// Decodes the name at `offset`, and returns it with the offset just past
/// its zero byte.
///
/// On success the name is well formed and the bytes read are its wire form.
pub fn unpack_name(buffer: &[u8], offset: usize) -> (r: Result<(Vec<String>, usize), DecodeError>)
    ensures
        match r {
            Ok((name, end)) => {
                &&& parse_name(buffer@, offset as int) == Ok::<_, DecodeError>(
                    (name_view(name@), end as int),
                )
                &&& name_wf(name_view(name@))
                &&& offset < end <= buffer@.len()
                &&& buffer@.subrange(offset as int, end as int) == name_wire(name_view(name@))
            },
            Err(e) => parse_name(buffer@, offset as int) == Err::<(Seq<Seq<char>>, int), _>(e),
        },
{
    let mut name: Vec<String> = Vec::new();
    let mut pos: usize = offset;
    proof {
        lemma_nothing_before(parse_name(buffer@, offset as int));
    }
    loop
        invariant
            parse_name(buffer@, offset as int) == with_items_before(
                name_view(name@),
                parse_name(buffer@, pos as int),
            ),
        decreases buffer@.len() - pos,
    {
        if pos >= buffer.len() {
            return Err(DecodeError::TruncatedBuffer);
        }
        let len: u8 = buffer[pos];
        if len == 0 {
            proof {
                lemma_all_before(name_view(name@), pos + 1);
                lemma_parse_name_sound(buffer@, offset as int);
            }
            return Ok((name, pos + 1));
        }
        let n: usize = len as usize;
        if n > MAX_LABEL_LEN {
            return Err(DecodeError::InvalidLabel);
        }
        if n > buffer.len() - pos - 1 {
            return Err(DecodeError::TruncatedBuffer);
        }
        let bytes: Vec<u8> = slice_to_vec(slice_subrange(buffer, pos + 1, pos + 1 + n));
        match label_text(bytes) {
            None => {
                return Err(DecodeError::InvalidLabel);
            },
            Some(label) => {
                proof {
                    encode_utf8_decode_utf8(label@);
                    assert(name_view(name@.push(label)) =~= name_view(name@).push(label@));
                    lemma_one_more_before(
                        name_view(name@),
                        label@,
                        parse_name(buffer@, pos + 1 + n),
                    );
                }
                name.push(label);
                pos = pos + 1 + n;
            },
        }
    }
}

} // verus!
