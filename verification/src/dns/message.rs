//! Whole messages: the twelve byte header, the questions, the answers.
//!
//! | bytes | field                                   |
//! |-------|-----------------------------------------|
//! | 0–1   | `id`                                    |
//! | 2–3   | the flags word                          |
//! | 4–5   | `question_count`                        |
//! | 6–7   | `answer_count`                          |
//! | 8–9   | `ns_count`                              |
//! | 10–11 | `ar_count`                              |
//! | 12…   | the questions, then the answers         |
//!
//! The two record counts are trusted when decoding: that many questions and
//! answers are read, and a buffer that ends before the last of them does is
//! truncated. The authority and additional records that `ns_count` and
//! `ar_count` announce are not read; the counts are kept as they are, and
//! whatever follows the answers in the buffer is left alone.

use crate::dns::answer::{
    answers_len_within, answers_view, answers_wf, answers_wire, are_valid_answers,
    lemma_parse_answers_of_wire, lemma_parse_answers_sound, parse_answers, unpack_answers,
    write_answers, Answer, AnswerView,
};
use crate::dns::bytes::{
    lemma_splice_twice, lemma_u16_round_trip, lemma_u16_wire_of_be16, read_u16, splice, u16_at,
    u16_wire, write_u16,
};
use crate::dns::error::{DecodeError, EncodeError};
use crate::dns::flags::{
    lemma_flags_round_trip, lemma_word_round_trip, pack_flags, unpack_flags, Flags,
};
use crate::dns::question::{
    are_valid_questions, lemma_parse_questions_of_wire, lemma_parse_questions_sound,
    parse_questions, questions_len_within, questions_view, questions_wf, questions_wire,
    unpack_questions, write_questions, Question, QuestionView,
};
use vstd::prelude::*;

verus! {

/// The number of bytes of the header.
pub const HEADER_LEN: usize = 12;

/// A DNS message.
#[derive(Clone, Debug, PartialEq, Eq)]
pub struct Message {
    /// The identifier that a response copies from its query.
    pub id: u16,
    /// One bit: 0 in a query, 1 in a response.
    pub query_response: u16,
    /// Four bits: the kind of query.
    pub operation_code: u16,
    /// One bit.
    pub authoritative_answer: u16,
    /// One bit.
    pub truncation_flag: u16,
    /// One bit.
    pub recursion_desired: u16,
    /// One bit.
    pub recursion_available: u16,
    /// Three reserved bits.
    pub unused: u16,
    /// Four bits: the response code.
    pub error_code: u16,
    /// The number of questions.
    pub question_count: u16,
    /// The number of answers.
    pub answer_count: u16,
    /// The number of authority records that follow the answers.
    pub ns_count: u16,
    /// The number of additional records that follow those.
    pub ar_count: u16,
    /// The question section.
    pub questions: Vec<Question>,
    /// The answer section.
    pub answers: Vec<Answer>,
}

/// A message as a mathematical value.
pub struct MessageView {
    /// The identifier.
    pub id: u16,
    /// The eight fields of the flags word.
    pub flags: Flags,
    /// The number of questions that the header announces.
    pub question_count: u16,
    /// The number of answers that the header announces.
    pub answer_count: u16,
    /// The number of authority records that the header announces.
    pub ns_count: u16,
    /// The number of additional records that the header announces.
    pub ar_count: u16,
    /// The question section.
    pub questions: Seq<QuestionView>,
    /// The answer section.
    pub answers: Seq<AnswerView>,
}

impl View for Message {
    type V = MessageView;

    open spec fn view(&self) -> MessageView {
        MessageView {
            id: self.id,
            flags: Flags {
                query_response: self.query_response,
                operation_code: self.operation_code,
                authoritative_answer: self.authoritative_answer,
                truncation_flag: self.truncation_flag,
                recursion_desired: self.recursion_desired,
                recursion_available: self.recursion_available,
                unused: self.unused,
                error_code: self.error_code,
            },
            question_count: self.question_count,
            answer_count: self.answer_count,
            ns_count: self.ns_count,
            ar_count: self.ar_count,
            questions: questions_view(self.questions@),
            answers: answers_view(self.answers@),
        }
    }
}

impl MessageView {
    /// The flags fit their bits, the two record counts are the lengths of
    /// the two sections, and every record is well formed.
    pub open spec fn wf(self) -> bool {
        &&& self.flags.wf()
        &&& self.question_count == self.questions.len()
        &&& self.answer_count == self.answers.len()
        &&& questions_wf(self.questions)
        &&& answers_wf(self.answers)
    }

    /// The header on the wire: six 16-bit values.
    pub open spec fn header_wire(self) -> Seq<u8> {
        u16_wire(self.id) + u16_wire(self.flags.word()) + u16_wire(self.question_count)
            + u16_wire(self.answer_count) + u16_wire(self.ns_count) + u16_wire(self.ar_count)
    }

    /// The message on the wire: the header, the questions, the answers.
    pub open spec fn wire(self) -> Seq<u8> {
        self.header_wire() + questions_wire(self.questions) + answers_wire(self.answers)
    }
}

/// Reads a message from the start of `buf`.
///
/// A buffer of fewer than twelve bytes is truncated. Otherwise the header
/// says how many questions and answers to read from byte 12 on, and the
/// first record that cannot be read decides the error.
pub open spec fn parse_message(buf: Seq<u8>) -> Result<MessageView, DecodeError> {
    if buf.len() < HEADER_LEN {
        Err(DecodeError::TruncatedBuffer)
    } else {
        match parse_questions(buf, HEADER_LEN as int, u16_at(buf, 4) as nat) {
            Err(e) => Err(e),
            Ok((questions, next)) => match parse_answers(buf, next, u16_at(buf, 6) as nat) {
                Err(e) => Err(e),
                Ok((answers, _)) => Ok(
                    MessageView {
                        id: u16_at(buf, 0),
                        flags: Flags::of_word(u16_at(buf, 2)),
                        question_count: u16_at(buf, 4),
                        answer_count: u16_at(buf, 6),
                        ns_count: u16_at(buf, 8),
                        ar_count: u16_at(buf, 10),
                        questions,
                        answers,
                    },
                ),
            },
        }
    }
}

/// The six values of a header, read back from its own bytes.
proof fn lemma_header_round_trip(m: MessageView)
    ensures
        m.header_wire().len() == HEADER_LEN,
        u16_at(m.header_wire(), 0) == m.id,
        u16_at(m.header_wire(), 2) == m.flags.word(),
        u16_at(m.header_wire(), 4) == m.question_count,
        u16_at(m.header_wire(), 6) == m.answer_count,
        u16_at(m.header_wire(), 8) == m.ns_count,
        u16_at(m.header_wire(), 10) == m.ar_count,
{
    lemma_u16_round_trip(m.id);
    lemma_u16_round_trip(m.flags.word());
    lemma_u16_round_trip(m.question_count);
    lemma_u16_round_trip(m.answer_count);
    lemma_u16_round_trip(m.ns_count);
    lemma_u16_round_trip(m.ar_count);
}

/// Decoding after encoding gives the message back: reading a buffer that
/// starts with the wire form of a well-formed message gives that message,
/// whatever follows it in the buffer.
pub proof fn lemma_parse_message_of_wire(buf: Seq<u8>, m: MessageView)
    requires
        m.wf(),
        m.wire().len() <= buf.len(),
        buf.subrange(0, m.wire().len() as int) == m.wire(),
    ensures
        parse_message(buf) == Ok::<_, DecodeError>(m),
{
    let wire = m.wire();
    let qw = questions_wire(m.questions);
    let aw = answers_wire(m.answers);
    let next = 12int + qw.len();
    assert forall|i: int| 0 <= i < wire.len() implies buf[i] == wire[i] by {
        assert(buf[i] == buf.subrange(0, wire.len() as int)[i]);
    }
    lemma_header_round_trip(m);
    lemma_flags_round_trip(m.flags);
    assert(buf.subrange(12, next) =~= qw);
    lemma_parse_questions_of_wire(buf, 12, m.questions);
    assert(buf.subrange(next, next + aw.len()) =~= aw);
    lemma_parse_answers_of_wire(buf, next, m.answers);
}

/// A message that was read is well formed, and the buffer it was read from
/// starts with its wire form.
pub proof fn lemma_parse_message_sound(buf: Seq<u8>)
    requires
        parse_message(buf) is Ok,
    ensures
        ({
            let m = parse_message(buf)->Ok_0;
            &&& m.wf()
            &&& m.wire().len() <= buf.len()
            &&& buf.subrange(0, m.wire().len() as int) == m.wire()
        }),
{
    let m = parse_message(buf)->Ok_0;
    lemma_parse_questions_sound(buf, 12, u16_at(buf, 4) as nat);
    let next = parse_questions(buf, 12, u16_at(buf, 4) as nat)->Ok_0.1;
    lemma_parse_answers_sound(buf, next, u16_at(buf, 6) as nat);
    let end = parse_answers(buf, next, u16_at(buf, 6) as nat)->Ok_0.1;
    lemma_word_round_trip(u16_at(buf, 2));
    lemma_u16_wire_of_be16(buf[0], buf[1]);
    lemma_u16_wire_of_be16(buf[2], buf[3]);
    lemma_u16_wire_of_be16(buf[4], buf[5]);
    lemma_u16_wire_of_be16(buf[6], buf[7]);
    lemma_u16_wire_of_be16(buf[8], buf[9]);
    lemma_u16_wire_of_be16(buf[10], buf[11]);
}

/// Nothing is lost in one cycle: the message read from a buffer, encoded
/// and read again, is the same message.
pub proof fn lemma_decode_encode_decode(buf: Seq<u8>)
    requires
        parse_message(buf) is Ok,
    ensures
        parse_message(parse_message(buf)->Ok_0.wire()) == parse_message(buf),
{
    let m = parse_message(buf)->Ok_0;
    lemma_parse_message_sound(buf);
    assert(m.wire().subrange(0, m.wire().len() as int) =~= m.wire());
    lemma_parse_message_of_wire(m.wire(), m);
}

/// The wire form tells well-formed messages apart: two of them that encode
/// to the same bytes are the same message.
pub proof fn lemma_wire_is_injective(m1: MessageView, m2: MessageView)
    requires
        m1.wf(),
        m2.wf(),
        m1.wire() == m2.wire(),
    ensures
        m1 == m2,
{
    let wire = m1.wire();
    assert(wire.subrange(0, wire.len() as int) =~= wire);
    lemma_parse_message_of_wire(wire, m1);
    lemma_parse_message_of_wire(wire, m2);
}

/// A buffer that is shorter than the header is truncated.
pub proof fn lemma_short_buffer_is_truncated(buf: Seq<u8>)
    requires
        buf.len() < HEADER_LEN,
    ensures
        parse_message(buf) == Err::<MessageView, _>(DecodeError::TruncatedBuffer),
{
}

impl Message {
    /// The flags of the message.
    pub fn flags(&self) -> (fields: Flags)
        ensures
            fields == self@.flags,
    {
        Flags {
            query_response: self.query_response,
            operation_code: self.operation_code,
            authoritative_answer: self.authoritative_answer,
            truncation_flag: self.truncation_flag,
            recursion_desired: self.recursion_desired,
            recursion_available: self.recursion_available,
            unused: self.unused,
            error_code: self.error_code,
        }
    }

    /// Whether the message is well formed.
    pub fn is_valid(&self) -> (b: bool)
        ensures
            b == self@.wf(),
    {
        self.flags().is_valid() && self.questions.len() == self.question_count as usize
            && self.answers.len() == self.answer_count as usize && are_valid_questions(
            &self.questions,
        ) && are_valid_answers(&self.answers)
    }

    /// The number of bytes that the message takes on the wire, if that is
    /// at most `limit`.
    pub fn len_within(&self, limit: usize) -> (len: Option<usize>)
        ensures
            match len {
                Some(n) => n == self@.wire().len() && n <= limit,
                None => self@.wire().len() > limit,
            },
    {
        proof {
            lemma_header_round_trip(self@);
        }
        if limit < HEADER_LEN {
            return None;
        }
        match questions_len_within(&self.questions, limit - HEADER_LEN) {
            None => None,
            Some(q) => match answers_len_within(&self.answers, limit - HEADER_LEN - q) {
                None => None,
                Some(a) => Some(HEADER_LEN + q + a),
            },
        }
    }

    /// Writes the header at the start of a buffer that has room for it.
    fn write_header(&self, buffer: &mut [u8])
        requires
            self@.flags.wf(),
            HEADER_LEN <= old(buffer)@.len(),
        ensures
            final(buffer)@ == splice(old(buffer)@, 0, self@.header_wire()),
            final(buffer)@.len() == old(buffer)@.len(),
    {
        let ghost start = buffer@;
        let ghost m = self@;
        let ghost h1 = u16_wire(m.id);
        let ghost h2 = h1 + u16_wire(m.flags.word());
        let ghost h3 = h2 + u16_wire(m.question_count);
        let ghost h4 = h3 + u16_wire(m.answer_count);
        let ghost h5 = h4 + u16_wire(m.ns_count);
        write_u16(buffer, 0, self.id);
        write_u16(buffer, 2, pack_flags(&self.flags()));
        proof {
            lemma_splice_twice(start, 0, h1, u16_wire(m.flags.word()));
        }
        write_u16(buffer, 4, self.question_count);
        proof {
            lemma_splice_twice(start, 0, h2, u16_wire(m.question_count));
        }
        write_u16(buffer, 6, self.answer_count);
        proof {
            lemma_splice_twice(start, 0, h3, u16_wire(m.answer_count));
        }
        write_u16(buffer, 8, self.ns_count);
        proof {
            lemma_splice_twice(start, 0, h4, u16_wire(m.ns_count));
        }
        write_u16(buffer, 10, self.ar_count);
        proof {
            lemma_splice_twice(start, 0, h5, u16_wire(m.ar_count));
        }
    }

    /// Encodes the message at the start of `buffer` and returns the number
    /// of bytes written. Decoding the buffer then gives the message back.
    ///
    /// Fails, and leaves the buffer as it was, when the buffer is shorter
    /// than the message on the wire. The bytes of the buffer after the
    /// message stay as they were.
    pub fn pack(&self, buffer: &mut [u8]) -> (r: Result<usize, EncodeError>)
        requires
            self@.wf(),
        ensures
            match r {
                Ok(written) => {
                    &&& written == self@.wire().len()
                    &&& written <= old(buffer)@.len()
                    &&& final(buffer)@ == splice(old(buffer)@, 0, self@.wire())
                    &&& parse_message(final(buffer)@) == Ok::<_, DecodeError>(self@)
                },
                Err(e) => {
                    &&& e == EncodeError::BufferTooSmall
                    &&& self@.wire().len() > old(buffer)@.len()
                    &&& final(buffer)@ == old(buffer)@
                },
            },
    {
        match self.len_within(buffer.len()) {
            None => Err(EncodeError::BufferTooSmall),
            Some(_) => {
                let ghost start = buffer@;
                let ghost m = self@;
                proof {
                    lemma_header_round_trip(m);
                }
                self.write_header(buffer);
                let next: usize = write_questions(&self.questions, buffer, HEADER_LEN);
                proof {
                    lemma_splice_twice(start, 0, m.header_wire(), questions_wire(m.questions));
                }
                let end: usize = write_answers(&self.answers, buffer, next);
                proof {
                    lemma_splice_twice(
                        start,
                        0,
                        m.header_wire() + questions_wire(m.questions),
                        answers_wire(m.answers),
                    );
                    assert(buffer@.subrange(0, m.wire().len() as int) =~= m.wire());
                    lemma_parse_message_of_wire(buffer@, m);
                }
                Ok(end)
            },
        }
    }

    /// Decodes the message at the start of `buffer`.
    ///
    /// On success the message is well formed and the buffer starts with its
    /// wire form.
    pub fn unpack(buffer: &[u8]) -> (r: Result<Message, DecodeError>)
        ensures
            match r {
                Ok(m) => {
                    &&& parse_message(buffer@) == Ok::<_, DecodeError>(m@)
                    &&& m@.wf()
                    &&& m@.wire().len() <= buffer@.len()
                    &&& buffer@.subrange(0, m@.wire().len() as int) == m@.wire()
                },
                Err(e) => parse_message(buffer@) == Err::<MessageView, _>(e),
            },
            buffer@.len() < HEADER_LEN ==> r == Err::<Message, _>(DecodeError::TruncatedBuffer),
    {
        if buffer.len() < HEADER_LEN {
            return Err(DecodeError::TruncatedBuffer);
        }
        let id: u16 = read_u16(buffer, 0);
        let body: u16 = read_u16(buffer, 2);
        let question_count: u16 = read_u16(buffer, 4);
        let answer_count: u16 = read_u16(buffer, 6);
        let ns_count: u16 = read_u16(buffer, 8);
        let ar_count: u16 = read_u16(buffer, 10);
        let fields: Flags = unpack_flags(body);
        let (questions, next) = match unpack_questions(buffer, HEADER_LEN, question_count) {
            Err(e) => {
                return Err(e);
            },
            Ok(section) => section,
        };
        let (answers, _) = match unpack_answers(buffer, next, answer_count) {
            Err(e) => {
                return Err(e);
            },
            Ok(section) => section,
        };
        proof {
            lemma_parse_message_sound(buffer@);
        }
        Ok(
            Message {
                id,
                query_response: fields.query_response,
                operation_code: fields.operation_code,
                authoritative_answer: fields.authoritative_answer,
                truncation_flag: fields.truncation_flag,
                recursion_desired: fields.recursion_desired,
                recursion_available: fields.recursion_available,
                unused: fields.unused,
                error_code: fields.error_code,
                question_count,
                answer_count,
                ns_count,
                ar_count,
                questions,
                answers,
            },
        )
    }
}

} // verus!
