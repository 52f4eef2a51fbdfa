//! Answer records: a name, the fixed fields of a resource record, and its
//! data, which this codec carries as opaque bytes.

use crate::dns::bytes::{
    lemma_flatten_len_prefix, lemma_flatten_take_next, lemma_splice_twice, lemma_u16_round_trip, lemma_u16_wire_of_be16, lemma_u32_round_trip,
    lemma_u32_wire_of_be32, read_u16, read_u32, splice, u16_at, u16_wire, u32_at, u32_wire,
    write_bytes, write_u16, write_u32,
};
use crate::dns::error::{DecodeError, EncodeError};
use crate::dns::name::{
    is_valid_name, lemma_parse_name_of_wire, lemma_parse_name_sound, name_len_within, name_view,
    name_wf, name_wire, parse_name, unpack_name, write_name,
};
use crate::dns::parse::{
    lemma_all_before, lemma_nothing_before, lemma_one_more_before, with_items_before, Parsed,
};
use vstd::prelude::*;
use vstd::slice::{slice_subrange, slice_to_vec};

verus! {

/// One resource record of the answer section.
#[derive(Clone, Debug, PartialEq, Eq)]
pub struct Answer {
    /// The labels of the name that the record belongs to.
    pub name: Vec<String>,
    /// The type of the record.
    pub rrtype: u16,
    /// The class of the record.
    pub class: u16,
    /// How many seconds the record may be kept.
    pub ttl: u32,
    /// The number of bytes of `data`.
    pub length: u16,
    /// The record's data.
    pub data: Vec<u8>,
}

/// An answer as a mathematical value.
pub struct AnswerView {
    /// The labels of the name, each as its characters.
    pub name: Seq<Seq<char>>,
    /// The type of the record.
    pub rrtype: u16,
    /// The class of the record.
    pub class: u16,
    /// How many seconds the record may be kept.
    pub ttl: u32,
    /// The number of bytes of `data`.
    pub length: u16,
    /// The record's data.
    pub data: Seq<u8>,
}

impl View for Answer {
    type V = AnswerView;

    open spec fn view(&self) -> AnswerView {
        AnswerView {
            name: name_view(self.name@),
            rrtype: self.rrtype,
            class: self.class,
            ttl: self.ttl,
            length: self.length,
            data: self.data@,
        }
    }
}

/// The number of bytes between the name and the data of an answer.
pub const ANSWER_FIXED_LEN: usize = 10;

impl AnswerView {
    /// The name is well formed, and `length` is the number of bytes of
    /// `data`.
    pub open spec fn wf(self) -> bool {
        &&& name_wf(self.name)
        &&& self.data.len() == self.length
    }

    /// The fixed fields on the wire: type, class, time to live and data
    /// length.
    pub open spec fn fixed_wire(self) -> Seq<u8> {
        u16_wire(self.rrtype) + u16_wire(self.class) + u32_wire(self.ttl) + u16_wire(self.length)
    }

    /// The answer on the wire: the name, the fixed fields, the data.
    pub open spec fn wire(self) -> Seq<u8> {
        name_wire(self.name) + self.fixed_wire() + self.data
    }
}

/// Reads an answer from `buf` at `off`: a name, ten bytes of fixed fields,
/// and as many bytes of data as the last of those fields says. Where the
/// name cannot be read, its error is reported; where the buffer ends before
/// the fixed fields or the data do, `TruncatedBuffer`.
pub open spec fn parse_answer(buf: Seq<u8>, off: int) -> Parsed<AnswerView> {
    match parse_name(buf, off) {
        Err(e) => Err(e),
        Ok((name, fixed)) => if fixed + ANSWER_FIXED_LEN > buf.len() {
            Err(DecodeError::TruncatedBuffer)
        } else if fixed + ANSWER_FIXED_LEN + u16_at(buf, fixed + 8) > buf.len() {
            Err(DecodeError::TruncatedBuffer)
        } else {
            let length = u16_at(buf, fixed + 8);
            let data = fixed + ANSWER_FIXED_LEN;
            Ok(
                (
                    AnswerView {
                        name,
                        rrtype: u16_at(buf, fixed),
                        class: u16_at(buf, fixed + 2),
                        ttl: u32_at(buf, fixed + 4),
                        length,
                        data: buf.subrange(data, data + length),
                    },
                    data + length,
                ),
            )
        },
    }
}

/// Reading where a well-formed answer stands on the wire gives that answer
/// and the offset just past it.
pub proof fn lemma_parse_answer_of_wire(buf: Seq<u8>, off: int, a: AnswerView)
    requires
        a.wf(),
        0 <= off,
        off + a.wire().len() <= buf.len(),
        buf.subrange(off, off + a.wire().len()) == a.wire(),
    ensures
        parse_answer(buf, off) == Ok::<_, DecodeError>((a, off + a.wire().len())),
{
    let wire = a.wire();
    let n = name_wire(a.name).len() as int;
    assert(buf.subrange(off, off + n) =~= name_wire(a.name));
    lemma_parse_name_of_wire(buf, off, a.name);
    assert forall|i: int| 0 <= i < 10 implies buf[off + n + i] == a.fixed_wire()[i] by {
        assert(buf[off + n + i] == wire[n + i]);
    }
    lemma_fixed_fields_round_trip(a);
    assert(buf.subrange(off + n + 10, off + n + 10 + a.length) =~= a.data) by {
        assert forall|i: int| 0 <= i < a.data.len() implies buf[off + n + 10 + i] == a.data[i] by {
            assert(buf[off + n + 10 + i] == wire[n + 10 + i]);
        }
    }
}

/// The fixed fields of an answer, read back from their own bytes.
proof fn lemma_fixed_fields_round_trip(a: AnswerView)
    ensures
        a.fixed_wire().len() == 10,
        u16_at(a.fixed_wire(), 0) == a.rrtype,
        u16_at(a.fixed_wire(), 2) == a.class,
        u32_at(a.fixed_wire(), 4) == a.ttl,
        u16_at(a.fixed_wire(), 8) == a.length,
{
    lemma_u16_round_trip(a.rrtype);
    lemma_u16_round_trip(a.class);
    lemma_u32_round_trip(a.ttl);
    lemma_u16_round_trip(a.length);
}

/// An answer that was read is well formed, ends inside the buffer, and the
/// bytes it was read from are its wire form.
pub proof fn lemma_parse_answer_sound(buf: Seq<u8>, off: int)
    requires
        parse_answer(buf, off) is Ok,
    ensures
        ({
            let (a, end) = parse_answer(buf, off)->Ok_0;
            &&& a.wf()
            &&& 0 <= off < end <= buf.len()
            &&& buf.subrange(off, end) == a.wire()
        }),
{
    lemma_parse_name_sound(buf, off);
    let fixed = parse_name(buf, off)->Ok_0.1;
    lemma_u16_wire_of_be16(buf[fixed], buf[fixed + 1]);
    lemma_u16_wire_of_be16(buf[fixed + 2], buf[fixed + 3]);
    lemma_u32_wire_of_be32(buf[fixed + 4], buf[fixed + 5], buf[fixed + 6], buf[fixed + 7]);
    lemma_u16_wire_of_be16(buf[fixed + 8], buf[fixed + 9]);
}

impl Answer {
    /// Whether the answer is well formed.
    pub fn is_valid(&self) -> (b: bool)
        ensures
            b == self@.wf(),
    {
        is_valid_name(&self.name) && self.data.len() == self.length as usize
    }

    /// The number of bytes that the answer takes on the wire, if that is at
    /// most `limit`.
    pub fn len_within(&self, limit: usize) -> (len: Option<usize>)
        ensures
            match len {
                Some(n) => n == self@.wire().len() && n <= limit,
                None => self@.wire().len() > limit,
            },
    {
        match name_len_within(&self.name, limit) {
            None => None,
            Some(n) => if limit - n < ANSWER_FIXED_LEN {
                None
            } else if limit - n - ANSWER_FIXED_LEN < self.data.len() {
                None
            } else {
                Some(n + ANSWER_FIXED_LEN + self.data.len())
            },
        }
    }

    /// Writes the answer at `offset` into a buffer that has room for it,
    /// and returns the offset just past it.
    pub(crate) fn write(&self, buffer: &mut [u8], offset: usize) -> (end: usize)
        requires
            self@.wf(),
            offset + self@.wire().len() <= old(buffer)@.len(),
        ensures
            end == offset + self@.wire().len(),
            final(buffer)@ == splice(old(buffer)@, offset as int, self@.wire()),
            final(buffer)@.len() == old(buffer)@.len(),
    {
        let ghost start = buffer@;
        assert(start.len() == buffer.len());
        let fixed: usize = write_name(&self.name, buffer, offset);
        write_u16(buffer, fixed, self.rrtype);
        write_u16(buffer, fixed + 2, self.class);
        write_u32(buffer, fixed + 4, self.ttl);
        write_u16(buffer, fixed + 8, self.length);
        write_bytes(buffer, fixed + ANSWER_FIXED_LEN, self.data.as_slice());
        proof {
            let at = offset as int;
            let w1 = name_wire(self@.name);
            let w2 = w1 + u16_wire(self.rrtype);
            let w3 = w2 + u16_wire(self.class);
            let w4 = w3 + u32_wire(self.ttl);
            let w5 = w4 + u16_wire(self.length);
            lemma_splice_twice(start, at, w1, u16_wire(self.rrtype));
            lemma_splice_twice(start, at, w2, u16_wire(self.class));
            lemma_splice_twice(start, at, w3, u32_wire(self.ttl));
            lemma_splice_twice(start, at, w4, u16_wire(self.length));
            lemma_splice_twice(start, at, w5, self.data@);
        }
        fixed + ANSWER_FIXED_LEN + self.data.len()
    }

    /// Encodes the answer at `offset` and returns the offset just past it.
    /// Decoding the buffer at `offset` then gives the answer back.
    ///
    /// Fails, and leaves the buffer as it was, when the buffer has too few
    /// bytes from `offset` on.
    pub fn pack(&self, buffer: &mut [u8], offset: usize) -> (r: Result<usize, EncodeError>)
        requires
            self@.wf(),
        ensures
            match r {
                Ok(end) => {
                    &&& end == offset + self@.wire().len()
                    &&& end <= old(buffer)@.len()
                    &&& final(buffer)@ == splice(old(buffer)@, offset as int, self@.wire())
                    &&& parse_answer(final(buffer)@, offset as int) == Ok::<_, DecodeError>(
                        (self@, end as int),
                    )
                },
                Err(e) => {
                    &&& e == EncodeError::BufferTooSmall
                    &&& offset + self@.wire().len() > old(buffer)@.len()
                    &&& final(buffer)@ == old(buffer)@
                },
            },
    {
        if offset > buffer.len() {
            return Err(EncodeError::BufferTooSmall);
        }
        match self.len_within(buffer.len() - offset) {
            None => Err(EncodeError::BufferTooSmall),
            Some(_) => {
                let end: usize = self.write(buffer, offset);
                proof {
                    assert(buffer@.subrange(offset as int, end as int) =~= self@.wire());
                    lemma_parse_answer_of_wire(buffer@, offset as int, self@);
                }
                Ok(end)
            },
        }
    }

    /// Decodes the answer at `offset`, and returns it with the offset just
    /// past its data.
    ///
    /// On success the answer is well formed and the bytes read are its wire
    /// form.
    pub fn unpack(buffer: &[u8], offset: usize) -> (r: Result<(Answer, usize), DecodeError>)
        ensures
            match r {
                Ok((a, end)) => {
                    &&& parse_answer(buffer@, offset as int) == Ok::<_, DecodeError>(
                        (a@, end as int),
                    )
                    &&& a@.wf()
                    &&& offset < end <= buffer@.len()
                    &&& buffer@.subrange(offset as int, end as int) == a@.wire()
                },
                Err(e) => parse_answer(buffer@, offset as int) == Err::<(AnswerView, int), _>(e),
            },
    {
        match unpack_name(buffer, offset) {
            Err(e) => Err(e),
            Ok((name, fixed)) => {
                if buffer.len() - fixed < ANSWER_FIXED_LEN {
                    return Err(DecodeError::TruncatedBuffer);
                }
                let rrtype: u16 = read_u16(buffer, fixed);
                let class: u16 = read_u16(buffer, fixed + 2);
                let ttl: u32 = read_u32(buffer, fixed + 4);
                let length: u16 = read_u16(buffer, fixed + 8);
                let start: usize = fixed + ANSWER_FIXED_LEN;
                if buffer.len() - start < length as usize {
                    return Err(DecodeError::TruncatedBuffer);
                }
                let end: usize = start + length as usize;
                let data: Vec<u8> = slice_to_vec(slice_subrange(buffer, start, end));
                proof {
                    lemma_parse_answer_sound(buffer@, offset as int);
                }
                Ok((Answer { name, rrtype, class, ttl, length, data }, end))
            },
        }
    }
}

/// The answers of a section as mathematical values.
pub open spec fn answers_view(answers: Seq<Answer>) -> Seq<AnswerView> {
    answers.map_values(|a: Answer| a@)
}

/// Every answer is well formed.
pub open spec fn answers_wf(answers: Seq<AnswerView>) -> bool {
    forall|i: int| 0 <= i < answers.len() ==> (#[trigger] answers[i]).wf()
}

/// The wire form of each answer.
pub open spec fn answer_wires(answers: Seq<AnswerView>) -> Seq<Seq<u8>> {
    answers.map_values(|a: AnswerView| a.wire())
}

/// An answer section on the wire: the answers one after the other.
pub open spec fn answers_wire(answers: Seq<AnswerView>) -> Seq<u8> {
    answer_wires(answers).flatten()
}

/// Reads `count` answers from `buf`, the first at `off` and each next
/// one where the one before it ended. An offset outside the buffer is
/// truncated, and so is a buffer that ends before the last answer does; the
/// first answer that cannot be read decides the error.
pub open spec fn parse_answers(buf: Seq<u8>, off: int, count: nat) -> Parsed<Seq<AnswerView>>
    decreases count,
{
    if off < 0 || off > buf.len() {
        Err(DecodeError::TruncatedBuffer)
    } else if count == 0 {
        Ok((Seq::empty(), off))
    } else {
        match parse_answer(buf, off) {
            Err(e) => Err(e),
            Ok((a, next)) => with_items_before(
                seq![a],
                parse_answers(buf, next, (count - 1) as nat),
            ),
        }
    }
}

/// Reading where well-formed answers stand on the wire gives those
/// answers and the offset just past them.
pub proof fn lemma_parse_answers_of_wire(buf: Seq<u8>, off: int, answers: Seq<AnswerView>)
    requires
        answers_wf(answers),
        0 <= off,
        off + answers_wire(answers).len() <= buf.len(),
        buf.subrange(off, off + answers_wire(answers).len()) == answers_wire(answers),
    ensures
        parse_answers(buf, off, answers.len()) == Ok::<_, DecodeError>(
            (answers, off + answers_wire(answers).len()),
        ),
    decreases answers.len(),
{
    let wire = answers_wire(answers);
    if answers.len() == 0 {
        assert(answers =~= Seq::<AnswerView>::empty());
    } else {
        let a = answers[0];
        let rest = answers.drop_first();
        let next = off + a.wire().len();
        assert(answer_wires(answers).drop_first() =~= answer_wires(rest));
        assert(buf.subrange(off, next) =~= a.wire());
        assert(buf.subrange(next, next + answers_wire(rest).len()) =~= answers_wire(rest)) by {
            assert forall|i: int| 0 <= i < answers_wire(rest).len() implies buf[next + i]
                == answers_wire(rest)[i] by {
                assert(buf[next + i] == wire[a.wire().len() + i]);
            }
        }
        lemma_parse_answer_of_wire(buf, off, a);
        lemma_parse_answers_of_wire(buf, next, rest);
        assert(seq![a] + rest =~= answers);
    }
}

/// Answers that were read are as many as were asked for, are well
/// formed, end inside the buffer, and the bytes they were read from are
/// their wire form.
pub proof fn lemma_parse_answers_sound(buf: Seq<u8>, off: int, count: nat)
    requires
        parse_answers(buf, off, count) is Ok,
    ensures
        ({
            let (answers, end) = parse_answers(buf, off, count)->Ok_0;
            &&& answers.len() == count
            &&& answers_wf(answers)
            &&& off <= end <= buf.len()
            &&& buf.subrange(off, end) == answers_wire(answers)
        }),
    decreases count,
{
    if count > 0 {
        let answers = parse_answers(buf, off, count)->Ok_0.0;
        let next = parse_answer(buf, off)->Ok_0.1;
        let rest = parse_answers(buf, next, (count - 1) as nat)->Ok_0.0;
        lemma_parse_answer_sound(buf, off);
        lemma_parse_answers_sound(buf, next, (count - 1) as nat);
        assert(answer_wires(answers).drop_first() =~= answer_wires(rest));
    }
}

/// Whether every answer is well formed.
pub fn are_valid_answers(answers: &Vec<Answer>) -> (b: bool)
    ensures
        b == answers_wf(answers_view(answers@)),
{
    let mut i: usize = 0;
    while i < answers.len()
        invariant
            i <= answers.len(),
            forall|k: int| 0 <= k < i ==> (#[trigger] answers_view(answers@)[k]).wf(),
        decreases answers.len() - i,
    {
        if !answers[i].is_valid() {
            assert(!answers_view(answers@)[i as int].wf());
            return false;
        }
        i = i + 1;
    }
    true
}

/// The number of bytes that the answers take on the wire, if that is at
/// most `limit`.
pub fn answers_len_within(answers: &Vec<Answer>, limit: usize) -> (len: Option<usize>)
    ensures
        match len {
            Some(n) => n == answers_wire(answers_view(answers@)).len() && n <= limit,
            None => answers_wire(answers_view(answers@)).len() > limit,
        },
{
    let ghost wires = answer_wires(answers_view(answers@));
    let mut total: usize = 0;
    let mut i: usize = 0;
    while i < answers.len()
        invariant
            i <= answers.len(),
            wires == answer_wires(answers_view(answers@)),
            total == wires.take(i as int).flatten().len(),
            total <= limit,
        decreases answers.len() - i,
    {
        proof {
            lemma_flatten_take_next(wires, i as int);
            lemma_flatten_len_prefix(wires, i + 1);
        }
        match answers[i].len_within(limit - total) {
            None => {
                return None;
            },
            Some(n) => {
                total = total + n;
            },
        }
        i = i + 1;
    }
    assert(wires.take(i as int) =~= wires);
    Some(total)
}

/// Writes the answers at `offset` into a buffer that has room for them,
/// and returns the offset just past them.
pub(crate) fn write_answers(answers: &Vec<Answer>, buffer: &mut [u8], offset: usize) -> (end:
    usize)
    requires
        answers_wf(answers_view(answers@)),
        offset + answers_wire(answers_view(answers@)).len() <= old(buffer)@.len(),
    ensures
        end == offset + answers_wire(answers_view(answers@)).len(),
        final(buffer)@ == splice(
            old(buffer)@,
            offset as int,
            answers_wire(answers_view(answers@)),
        ),
        final(buffer)@.len() == old(buffer)@.len(),
{
    let ghost start = buffer@;
    let ghost views = answers_view(answers@);
    let ghost wires = answer_wires(views);
    let mut pos: usize = offset;
    let mut i: usize = 0;
    while i < answers.len()
        invariant
            i <= answers.len(),
            views == answers_view(answers@),
            wires == answer_wires(views),
            answers_wf(views),
            offset + wires.flatten().len() <= start.len(),
            pos == offset + wires.take(i as int).flatten().len(),
            buffer@ == splice(start, offset as int, wires.take(i as int).flatten()),
        decreases answers.len() - i,
    {
        proof {
            lemma_flatten_take_next(wires, i as int);
            lemma_flatten_len_prefix(wires, i + 1);
            lemma_splice_twice(
                start,
                offset as int,
                wires.take(i as int).flatten(),
                wires[i as int],
            );
        }
        pos = answers[i].write(buffer, pos);
        i = i + 1;
    }
    assert(wires.take(i as int) =~= wires);
    pos
}

/// Decodes `count` answers, the first at `offset`, and returns them with
/// the offset just past the last.
///
/// On success the answers are well formed and the bytes read are their
/// wire form.
pub fn unpack_answers(buffer: &[u8], offset: usize, count: u16) -> (r: Result<
    (Vec<Answer>, usize),
    DecodeError,
>)
    ensures
        match r {
            Ok((answers, end)) => {
                &&& parse_answers(buffer@, offset as int, count as nat) == Ok::<_, DecodeError>(
                    (answers_view(answers@), end as int),
                )
                &&& answers@.len() == count
                &&& answers_wf(answers_view(answers@))
                &&& offset <= end <= buffer@.len()
                &&& buffer@.subrange(offset as int, end as int) == answers_wire(
                    answers_view(answers@),
                )
            },
            Err(e) => parse_answers(buffer@, offset as int, count as nat) == Err::<
                (Seq<AnswerView>, int),
                _,
            >(e),
        },
{
    if offset > buffer.len() {
        return Err(DecodeError::TruncatedBuffer);
    }
    let mut answers: Vec<Answer> = Vec::with_capacity(count as usize);
    let mut pos: usize = offset;
    let mut i: u16 = 0;
    proof {
        lemma_nothing_before(parse_answers(buffer@, offset as int, count as nat));
    }
    while i < count
        invariant
            i <= count,
            pos <= buffer@.len(),
            parse_answers(buffer@, offset as int, count as nat) == with_items_before(
                answers_view(answers@),
                parse_answers(buffer@, pos as int, (count - i) as nat),
            ),
        decreases count - i,
    {
        match Answer::unpack(buffer, pos) {
            Err(e) => {
                return Err(e);
            },
            Ok((a, next)) => {
                proof {
                    assert(answers_view(answers@.push(a)) =~= answers_view(answers@).push(
                        a@,
                    ));
                    lemma_one_more_before(
                        answers_view(answers@),
                        a@,
                        parse_answers(buffer@, next as int, (count - i - 1) as nat),
                    );
                }
                answers.push(a);
                pos = next;
            },
        }
        i = i + 1;
    }
    proof {
        lemma_all_before(answers_view(answers@), pos as int);
        lemma_parse_answers_sound(buffer@, offset as int, count as nat);
    }
    Ok((answers, pos))
}

} // verus!
