//! Encoding and decoding of DNS messages to and from their wire format.
//!
//! The wire layout is the one of RFC 1035, section 4, without name
//! compression: a twelve byte header, then the question records, then the
//! answer records. Decoding turns a received buffer into a
//! [`dns::message::Message`]; encoding writes a message into a buffer that
//! the caller provides, and says how many bytes it wrote.
//!
//! Nothing here reads or writes out of bounds, and nothing panics: a buffer
//! that is too short or malformed is reported as an error value, and so is
//! a buffer that is too small to encode into.
//!
//! # How the contracts are stated
//!
//! Every value has a mathematical view (`MessageView`, `QuestionView`,
//! `AnswerView`, and `Seq<Seq<char>>` for a name), a predicate `wf` that
//! says when it can stand on the wire, and a function `wire` that gives its
//! bytes there. For every kind of value a function `parse_..` says what
//! reading a buffer at an offset gives: a value and the offset past it, or
//! an error.
//!
//! An encoder promises that the buffer is the old buffer with `wire`
//! written over it at the offset; a decoder promises the result of
//! `parse_..`. Two lemmas for each kind of value tie the two together:
//! reading where the wire form of a well-formed value stands gives that
//! value, and a value that was read is well formed and was read from its
//! own wire form.

pub mod dns;
