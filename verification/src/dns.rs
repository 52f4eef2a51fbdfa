//! The DNS message codec, leaves first: byte order, header flags, names,
//! questions, answers, and the message that holds them.

pub mod answer;
pub mod bytes;
pub mod error;
pub mod flags;
pub mod message;
pub mod name;
pub mod parse;
pub mod question;
