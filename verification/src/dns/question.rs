//! Question records: a name, a query type and a query class.

use crate::dns::bytes::{
    lemma_flatten_len_prefix, lemma_flatten_take_next, lemma_splice_twice,
    lemma_u16_wire_of_be16, read_u16, splice, u16_at, u16_wire, write_u16,
};
use crate::dns::error::{DecodeError, EncodeError};
use crate::dns::name::{
    is_valid_name, lemma_parse_name_of_wire, lemma_parse_name_sound, name_len_within, name_view,
    name_wf, name_wire, parse_name, unpack_name, write_name,
};
use crate::dns::parse::{
    lemma_all_before, lemma_nothing_before, lemma_one_more_before, with_items_before, Parsed,
};
use vstd::prelude::*;

verus! {

/// One entry of the question section.
#[derive(Clone, Debug, PartialEq, Eq)]
pub struct Question {
    /// The labels of the name that is asked about, without the empty label
    /// that ends the name on the wire.
    pub name: Vec<String>,
    /// The type of record asked for.
    pub qtype: u16,
    /// The class of record asked for.
    pub qclass: u16,
}

/// A question as a mathematical value.
pub struct QuestionView {
    /// The labels of the name, each as its characters.
    pub name: Seq<Seq<char>>,
    /// The type of record asked for.
    pub qtype: u16,
    /// The class of record asked for.
    pub qclass: u16,
}

impl View for Question {
    type V = QuestionView;

    open spec fn view(&self) -> QuestionView {
        QuestionView { name: name_view(self.name@), qtype: self.qtype, qclass: self.qclass }
    }
}

impl QuestionView {
    /// The name is well formed.
    pub open spec fn wf(self) -> bool {
        name_wf(self.name)
    }

    /// The question on the wire: the name, then type and class, two bytes
    /// each.
    pub open spec fn wire(self) -> Seq<u8> {
        name_wire(self.name) + u16_wire(self.qtype) + u16_wire(self.qclass)
    }
}

/// Reads a question from `buf` at `off`: a name, then four bytes. Where the
/// name cannot be read, its error is reported; where fewer than four bytes
/// follow it, `TruncatedBuffer`.
pub open spec fn parse_question(buf: Seq<u8>, off: int) -> Parsed<QuestionView> {
    match parse_name(buf, off) {
        Err(e) => Err(e),
        Ok((name, fixed)) => if fixed + 4 > buf.len() {
            Err(DecodeError::TruncatedBuffer)
        } else {
            Ok(
                (
                    QuestionView {
                        name,
                        qtype: u16_at(buf, fixed),
                        qclass: u16_at(buf, fixed + 2),
                    },
                    fixed + 4,
                ),
            )
        },
    }
}

/// Reading where a well-formed question stands on the wire gives that
/// question and the offset just past it.
pub proof fn lemma_parse_question_of_wire(buf: Seq<u8>, off: int, q: QuestionView)
    requires
        q.wf(),
        0 <= off,
        off + q.wire().len() <= buf.len(),
        buf.subrange(off, off + q.wire().len()) == q.wire(),
    ensures
        parse_question(buf, off) == Ok::<_, DecodeError>((q, off + q.wire().len())),
{
    let wire = q.wire();
    let n = name_wire(q.name).len() as int;
    assert(buf.subrange(off, off + n) =~= name_wire(q.name));
    lemma_parse_name_of_wire(buf, off, q.name);
    assert(buf[off + n] == wire[n] && buf[off + n + 1] == wire[n + 1]);
    assert(buf[off + n + 2] == wire[n + 2] && buf[off + n + 3] == wire[n + 3]);
}

/// A question that was read is well formed, ends inside the buffer, and
/// the bytes it was read from are its wire form.
pub proof fn lemma_parse_question_sound(buf: Seq<u8>, off: int)
    requires
        parse_question(buf, off) is Ok,
    ensures
        ({
            let (q, end) = parse_question(buf, off)->Ok_0;
            &&& q.wf()
            &&& 0 <= off < end <= buf.len()
            &&& buf.subrange(off, end) == q.wire()
        }),
{
    lemma_parse_name_sound(buf, off);
    let fixed = parse_name(buf, off)->Ok_0.1;
    lemma_u16_wire_of_be16(buf[fixed], buf[fixed + 1]);
    lemma_u16_wire_of_be16(buf[fixed + 2], buf[fixed + 3]);
}

impl Question {
    /// Whether the question is well formed.
    pub fn is_valid(&self) -> (b: bool)
        ensures
            b == self@.wf(),
    {
        is_valid_name(&self.name)
    }

    /// The number of bytes that the question takes on the wire, if that is
    /// at most `limit`.
    pub fn len_within(&self, limit: usize) -> (len: Option<usize>)
        ensures
            match len {
                Some(n) => n == self@.wire().len() && n <= limit,
                None => self@.wire().len() > limit,
            },
    {
        match name_len_within(&self.name, limit) {
            None => None,
            Some(n) => if limit - n < 4 {
                None
            } else {
                Some(n + 4)
            },
        }
    }

    /// Writes the question at `offset` into a buffer that has room for it,
    /// and returns the offset just past it.
    pub(crate) fn write(&self, buffer: &mut [u8], offset: usize) -> (end: usize)
        requires
            self@.wf(),
            offset + self@.wire().len() <= old(buffer)@.len(),
        ensures
            end == offset + self@.wire().len(),
            final(buffer)@ == splice(old(buffer)@, offset as int, self@.wire()),
            final(buffer)@.len() == old(buffer)@.len(),
    {
        let ghost start = buffer@;
        assert(start.len() == buffer.len());
        let fixed: usize = write_name(&self.name, buffer, offset);
        write_u16(buffer, fixed, self.qtype);
        write_u16(buffer, fixed + 2, self.qclass);
        proof {
            let name = name_wire(self@.name);
            lemma_splice_twice(start, offset as int, name, u16_wire(self.qtype));
            lemma_splice_twice(
                start,
                offset as int,
                name + u16_wire(self.qtype),
                u16_wire(self.qclass),
            );
        }
        fixed + 4
    }

    /// Encodes the question at `offset` and returns the offset just past
    /// it. Decoding the buffer at `offset` then gives the question back.
    ///
    /// Fails, and leaves the buffer as it was, when the buffer has too few
    /// bytes from `offset` on.
    pub fn pack(&self, buffer: &mut [u8], offset: usize) -> (r: Result<usize, EncodeError>)
        requires
            self@.wf(),
        ensures
            match r {
                Ok(end) => {
                    &&& end == offset + self@.wire().len()
                    &&& end <= old(buffer)@.len()
                    &&& final(buffer)@ == splice(old(buffer)@, offset as int, self@.wire())
                    &&& parse_question(final(buffer)@, offset as int) == Ok::<_, DecodeError>(
                        (self@, end as int),
                    )
                },
                Err(e) => {
                    &&& e == EncodeError::BufferTooSmall
                    &&& offset + self@.wire().len() > old(buffer)@.len()
                    &&& final(buffer)@ == old(buffer)@
                },
            },
    {
        if offset > buffer.len() {
            return Err(EncodeError::BufferTooSmall);
        }
        match self.len_within(buffer.len() - offset) {
            None => Err(EncodeError::BufferTooSmall),
            Some(_) => {
                let end: usize = self.write(buffer, offset);
                proof {
                    assert(buffer@.subrange(offset as int, end as int) =~= self@.wire());
                    lemma_parse_question_of_wire(buffer@, offset as int, self@);
                }
                Ok(end)
            },
        }
    }

    /// Decodes the question at `offset`, and returns it with the offset
    /// just past it.
    ///
    /// On success the question is well formed and the bytes read are its
    /// wire form.
    pub fn unpack(buffer: &[u8], offset: usize) -> (r: Result<(Question, usize), DecodeError>)
        ensures
            match r {
                Ok((q, end)) => {
                    &&& parse_question(buffer@, offset as int) == Ok::<_, DecodeError>(
                        (q@, end as int),
                    )
                    &&& q@.wf()
                    &&& offset < end <= buffer@.len()
                    &&& buffer@.subrange(offset as int, end as int) == q@.wire()
                },
                Err(e) => parse_question(buffer@, offset as int) == Err::<(QuestionView, int), _>(
                    e,
                ),
            },
    {
        match unpack_name(buffer, offset) {
            Err(e) => Err(e),
            Ok((name, fixed)) => {
                if buffer.len() - fixed < 4 {
                    return Err(DecodeError::TruncatedBuffer);
                }
                let qtype: u16 = read_u16(buffer, fixed);
                let qclass: u16 = read_u16(buffer, fixed + 2);
                proof {
                    lemma_parse_question_sound(buffer@, offset as int);
                }
                Ok((Question { name, qtype, qclass }, fixed + 4))
            },
        }
    }
}

/// The questions of a section as mathematical values.
pub open spec fn questions_view(questions: Seq<Question>) -> Seq<QuestionView> {
    questions.map_values(|q: Question| q@)
}

/// Every question is well formed.
pub open spec fn questions_wf(questions: Seq<QuestionView>) -> bool {
    forall|i: int| 0 <= i < questions.len() ==> (#[trigger] questions[i]).wf()
}

/// The wire form of each question.
pub open spec fn question_wires(questions: Seq<QuestionView>) -> Seq<Seq<u8>> {
    questions.map_values(|q: QuestionView| q.wire())
}

/// A question section on the wire: the questions one after the other.
pub open spec fn questions_wire(questions: Seq<QuestionView>) -> Seq<u8> {
    question_wires(questions).flatten()
}

/// Reads `count` questions from `buf`, the first at `off` and each next
/// one where the one before it ended. An offset outside the buffer is
/// truncated, and so is a buffer that ends before the last question does; the
/// first question that cannot be read decides the error.
pub open spec fn parse_questions(buf: Seq<u8>, off: int, count: nat) -> Parsed<Seq<QuestionView>>
    decreases count,
{
    if off < 0 || off > buf.len() {
        Err(DecodeError::TruncatedBuffer)
    } else if count == 0 {
        Ok((Seq::empty(), off))
    } else {
        match parse_question(buf, off) {
            Err(e) => Err(e),
            Ok((q, next)) => with_items_before(
                seq![q],
                parse_questions(buf, next, (count - 1) as nat),
            ),
        }
    }
}

/// Reading where well-formed questions stand on the wire gives those
/// questions and the offset just past them.
pub proof fn lemma_parse_questions_of_wire(buf: Seq<u8>, off: int, questions: Seq<QuestionView>)
    requires
        questions_wf(questions),
        0 <= off,
        off + questions_wire(questions).len() <= buf.len(),
        buf.subrange(off, off + questions_wire(questions).len()) == questions_wire(questions),
    ensures
        parse_questions(buf, off, questions.len()) == Ok::<_, DecodeError>(
            (questions, off + questions_wire(questions).len()),
        ),
    decreases questions.len(),
{
    let wire = questions_wire(questions);
    if questions.len() == 0 {
        assert(questions =~= Seq::<QuestionView>::empty());
    } else {
        let q = questions[0];
        let rest = questions.drop_first();
        let next = off + q.wire().len();
        assert(question_wires(questions).drop_first() =~= question_wires(rest));
        assert(buf.subrange(off, next) =~= q.wire());
        assert(buf.subrange(next, next + questions_wire(rest).len()) =~= questions_wire(rest)) by {
            assert forall|i: int| 0 <= i < questions_wire(rest).len() implies buf[next + i]
                == questions_wire(rest)[i] by {
                assert(buf[next + i] == wire[q.wire().len() + i]);
            }
        }
        lemma_parse_question_of_wire(buf, off, q);
        lemma_parse_questions_of_wire(buf, next, rest);
        assert(seq![q] + rest =~= questions);
    }
}

/// Questions that were read are as many as were asked for, are well
/// formed, end inside the buffer, and the bytes they were read from are
/// their wire form.
pub proof fn lemma_parse_questions_sound(buf: Seq<u8>, off: int, count: nat)
    requires
        parse_questions(buf, off, count) is Ok,
    ensures
        ({
            let (questions, end) = parse_questions(buf, off, count)->Ok_0;
            &&& questions.len() == count
            &&& questions_wf(questions)
            &&& off <= end <= buf.len()
            &&& buf.subrange(off, end) == questions_wire(questions)
        }),
    decreases count,
{
    if count > 0 {
        let questions = parse_questions(buf, off, count)->Ok_0.0;
        let next = parse_question(buf, off)->Ok_0.1;
        let rest = parse_questions(buf, next, (count - 1) as nat)->Ok_0.0;
        lemma_parse_question_sound(buf, off);
        lemma_parse_questions_sound(buf, next, (count - 1) as nat);
        assert(question_wires(questions).drop_first() =~= question_wires(rest));
    }
}

/// Whether every question is well formed.
pub fn are_valid_questions(questions: &Vec<Question>) -> (b: bool)
    ensures
        b == questions_wf(questions_view(questions@)),
{
    let mut i: usize = 0;
    while i < questions.len()
        invariant
            i <= questions.len(),
            forall|k: int| 0 <= k < i ==> (#[trigger] questions_view(questions@)[k]).wf(),
        decreases questions.len() - i,
    {
        if !questions[i].is_valid() {
            assert(!questions_view(questions@)[i as int].wf());
            return false;
        }
        i = i + 1;
    }
    true
}

/// The number of bytes that the questions take on the wire, if that is at
/// most `limit`.
pub fn questions_len_within(questions: &Vec<Question>, limit: usize) -> (len: Option<usize>)
    ensures
        match len {
            Some(n) => n == questions_wire(questions_view(questions@)).len() && n <= limit,
            None => questions_wire(questions_view(questions@)).len() > limit,
        },
{
    let ghost wires = question_wires(questions_view(questions@));
    let mut total: usize = 0;
    let mut i: usize = 0;
    while i < questions.len()
        invariant
            i <= questions.len(),
            wires == question_wires(questions_view(questions@)),
            total == wires.take(i as int).flatten().len(),
            total <= limit,
        decreases questions.len() - i,
    {
        proof {
            lemma_flatten_take_next(wires, i as int);
            lemma_flatten_len_prefix(wires, i + 1);
        }
        match questions[i].len_within(limit - total) {
            None => {
                return None;
            },
            Some(n) => {
                total = total + n;
            },
        }
        i = i + 1;
    }
    assert(wires.take(i as int) =~= wires);
    Some(total)
}

/// Writes the questions at `offset` into a buffer that has room for them,
/// and returns the offset just past them.
pub(crate) fn write_questions(questions: &Vec<Question>, buffer: &mut [u8], offset: usize) -> (end:
    usize)
    requires
        questions_wf(questions_view(questions@)),
        offset + questions_wire(questions_view(questions@)).len() <= old(buffer)@.len(),
    ensures
        end == offset + questions_wire(questions_view(questions@)).len(),
        final(buffer)@ == splice(
            old(buffer)@,
            offset as int,
            questions_wire(questions_view(questions@)),
        ),
        final(buffer)@.len() == old(buffer)@.len(),
{
    let ghost start = buffer@;
    let ghost views = questions_view(questions@);
    let ghost wires = question_wires(views);
    let mut pos: usize = offset;
    let mut i: usize = 0;
    while i < questions.len()
        invariant
            i <= questions.len(),
            views == questions_view(questions@),
            wires == question_wires(views),
            questions_wf(views),
            offset + wires.flatten().len() <= start.len(),
            pos == offset + wires.take(i as int).flatten().len(),
            buffer@ == splice(start, offset as int, wires.take(i as int).flatten()),
        decreases questions.len() - i,
    {
        proof {
            lemma_flatten_take_next(wires, i as int);
            lemma_flatten_len_prefix(wires, i + 1);
            lemma_splice_twice(
                start,
                offset as int,
                wires.take(i as int).flatten(),
                wires[i as int],
            );
        }
        pos = questions[i].write(buffer, pos);
        i = i + 1;
    }
    assert(wires.take(i as int) =~= wires);
    pos
}

/// Decodes `count` questions, the first at `offset`, and returns them with
/// the offset just past the last.
///
/// On success the questions are well formed and the bytes read are their
/// wire form.
pub fn unpack_questions(buffer: &[u8], offset: usize, count: u16) -> (r: Result<
    (Vec<Question>, usize),
    DecodeError,
>)
    ensures
        match r {
            Ok((questions, end)) => {
                &&& parse_questions(buffer@, offset as int, count as nat) == Ok::<_, DecodeError>(
                    (questions_view(questions@), end as int),
                )
                &&& questions@.len() == count
                &&& questions_wf(questions_view(questions@))
                &&& offset <= end <= buffer@.len()
                &&& buffer@.subrange(offset as int, end as int) == questions_wire(
                    questions_view(questions@),
                )
            },
            Err(e) => parse_questions(buffer@, offset as int, count as nat) == Err::<
                (Seq<QuestionView>, int),
                _,
            >(e),
        },
{
    if offset > buffer.len() {
        return Err(DecodeError::TruncatedBuffer);
    }
    let mut questions: Vec<Question> = Vec::with_capacity(count as usize);
    let mut pos: usize = offset;
    let mut i: u16 = 0;
    proof {
        lemma_nothing_before(parse_questions(buffer@, offset as int, count as nat));
    }
    while i < count
        invariant
            i <= count,
            pos <= buffer@.len(),
            parse_questions(buffer@, offset as int, count as nat) == with_items_before(
                questions_view(questions@),
                parse_questions(buffer@, pos as int, (count - i) as nat),
            ),
        decreases count - i,
    {
        match Question::unpack(buffer, pos) {
            Err(e) => {
                return Err(e);
            },
            Ok((q, next)) => {
                proof {
                    assert(questions_view(questions@.push(q)) =~= questions_view(questions@).push(
                        q@,
                    ));
                    lemma_one_more_before(
                        questions_view(questions@),
                        q@,
                        parse_questions(buffer@, next as int, (count - i - 1) as nat),
                    );
                }
                questions.push(q);
                pos = next;
            },
        }
        i = i + 1;
    }
    proof {
        lemma_all_before(questions_view(questions@), pos as int);
        lemma_parse_questions_sound(buffer@, offset as int, count as nat);
    }
    Ok((questions, pos))
}

} // verus!
