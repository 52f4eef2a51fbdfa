use dns_codec::dns::error::{DecodeError, EncodeError};
use dns_codec::dns::question::{
    are_valid_questions, questions_len_within, unpack_questions, Question,
};

fn question(labels: &[&str], qtype: u16, qclass: u16) -> Question {
    Question { name: labels.iter().map(|label| label.to_string()).collect(), qtype, qclass }
}

const A_IN: [u8; 7] = [0x01, 0x61, 0x00, 0x00, 0x01, 0x00, 0x01];

#[test]
fn question_encodes_to_seven_bytes() {
    let mut buffer = [0xFFu8; 7];
    assert_eq!(question(&["a"], 1, 1).pack(&mut buffer, 0), Ok(7));
    assert_eq!(buffer, A_IN);
}

#[test]
fn question_decodes_back() {
    assert_eq!(Question::unpack(&A_IN, 0), Ok((question(&["a"], 1, 1), 7)));
}

#[test]
fn type_and_class_are_big_endian() {
    let q = question(&["a"], 0x00FF, 0x0102);
    let mut buffer = [0u8; 9];
    assert_eq!(q.pack(&mut buffer, 1), Ok(8));
    assert_eq!(buffer, [0, 1, b'a', 0, 0x00, 0xFF, 0x01, 0x02, 0]);
    assert_eq!(Question::unpack(&buffer, 1), Ok((q, 8)));
}

#[test]
fn question_without_type_and_class_is_truncated() {
    for cut in 0..A_IN.len() {
        assert_eq!(Question::unpack(&A_IN[..cut], 0), Err(DecodeError::TruncatedBuffer));
    }
    assert_eq!(Question::unpack(&A_IN, 4), Err(DecodeError::TruncatedBuffer));
    assert_eq!(Question::unpack(&A_IN, 7), Err(DecodeError::TruncatedBuffer));
    assert_eq!(Question::unpack(&A_IN, 8), Err(DecodeError::TruncatedBuffer));
}

#[test]
fn question_with_a_pointer_is_invalid() {
    assert_eq!(
        Question::unpack(&[0xC0, 0x0C, 0x00, 0x01, 0x00, 0x01], 0),
        Err(DecodeError::InvalidLabel)
    );
}

#[test]
fn question_needs_room() {
    let q = question(&["a"], 1, 1);
    for size in 0..7 {
        let mut buffer = vec![0x55u8; size];
        assert_eq!(q.pack(&mut buffer, 0), Err(EncodeError::BufferTooSmall));
        assert_eq!(buffer, vec![0x55u8; size]);
    }
    let mut buffer = [0x55u8; 7];
    assert_eq!(q.pack(&mut buffer, 1), Err(EncodeError::BufferTooSmall));
    assert_eq!(q.pack(&mut buffer, 8), Err(EncodeError::BufferTooSmall));
    assert_eq!(buffer, [0x55u8; 7]);
}

#[test]
fn question_length_is_name_plus_four() {
    let q = question(&["example", "com"], 1, 1);
    assert_eq!(q.len_within(17), Some(17));
    assert_eq!(q.len_within(16), None);
    assert_eq!(q.len_within(13), None);
    assert_eq!(q.len_within(0), None);
    assert_eq!(question(&[], 0, 0).len_within(5), Some(5));
}

#[test]
fn question_validity_is_that_of_its_name() {
    assert!(question(&["a"], 0xFFFF, 0xFFFF).is_valid());
    assert!(question(&[], 1, 1).is_valid());
    assert!(!question(&[""], 1, 1).is_valid());
    let long = "y".repeat(64);
    assert!(!question(&["a", &long], 1, 1).is_valid());
    assert!(are_valid_questions(&vec![question(&["a"], 1, 1), question(&["b"], 1, 1)]));
    assert!(!are_valid_questions(&vec![question(&["a"], 1, 1), question(&[""], 1, 1)]));
    assert!(are_valid_questions(&Vec::new()));
}

#[test]
fn questions_are_read_one_after_the_other() {
    let buffer = [1, b'a', 0, 0, 1, 0, 1, 1, b'b', 0, 0, 28, 0, 1, 0xEE];
    assert_eq!(
        unpack_questions(&buffer, 0, 2),
        Ok((vec![question(&["a"], 1, 1), question(&["b"], 28, 1)], 14))
    );
    assert_eq!(unpack_questions(&buffer, 0, 1), Ok((vec![question(&["a"], 1, 1)], 7)));
    assert_eq!(unpack_questions(&buffer, 3, 0), Ok((Vec::new(), 3)));
    assert_eq!(unpack_questions(&buffer, 0, 3), Err(DecodeError::InvalidLabel));
    assert_eq!(unpack_questions(&buffer[..14], 0, 3), Err(DecodeError::TruncatedBuffer));
}

#[test]
fn question_is_read_from_where_the_offset_says() {
    // From the zero byte on: the root name, then type and class.
    assert_eq!(Question::unpack(&A_IN, 2), Ok((question(&[], 1, 1), 7)));
    // From the letter on: 0x61 is no length byte.
    assert_eq!(Question::unpack(&A_IN, 1), Err(DecodeError::InvalidLabel));
}

#[test]
fn questions_length_is_the_sum() {
    let questions = vec![question(&["a"], 1, 1), question(&["example", "com"], 1, 1)];
    assert_eq!(questions_len_within(&questions, 24), Some(24));
    assert_eq!(questions_len_within(&questions, 23), None);
    assert_eq!(questions_len_within(&questions, 6), None);
    assert_eq!(questions_len_within(&Vec::new(), 0), Some(0));
}
