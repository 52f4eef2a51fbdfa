use dns_codec::dns::answer::Answer;
use dns_codec::dns::error::{DecodeError, EncodeError};
use dns_codec::dns::message::Message;
use dns_codec::dns::question::Question;

fn labels(parts: &[&str]) -> Vec<String> {
    parts.iter().map(|part| part.to_string()).collect()
}

fn query() -> Message {
    Message {
        id: 0x1234,
        query_response: 0,
        operation_code: 0,
        authoritative_answer: 0,
        truncation_flag: 0,
        recursion_desired: 1,
        recursion_available: 0,
        unused: 0,
        error_code: 0,
        question_count: 1,
        answer_count: 0,
        ns_count: 0,
        ar_count: 0,
        questions: vec![Question { name: labels(&["example", "com"]), qtype: 1, qclass: 1 }],
        answers: Vec::new(),
    }
}

const QUERY: [u8; 29] = [
    0x12, 0x34, 0x01, 0x00, 0x00, 0x01, 0x00, 0x00, 0x00, 0x00, 0x00, 0x00, 0x07, 0x65, 0x78,
    0x61, 0x6D, 0x70, 0x6C, 0x65, 0x03, 0x63, 0x6F, 0x6D, 0x00, 0x00, 0x01, 0x00, 0x01,
];

fn response() -> Message {
    Message {
        id: 0xBEEF,
        query_response: 1,
        operation_code: 2,
        authoritative_answer: 1,
        truncation_flag: 0,
        recursion_desired: 1,
        recursion_available: 1,
        unused: 5,
        error_code: 3,
        question_count: 2,
        answer_count: 2,
        ns_count: 7,
        ar_count: 9,
        questions: vec![
            Question { name: labels(&["a"]), qtype: 1, qclass: 1 },
            Question { name: labels(&["b", "c"]), qtype: 28, qclass: 255 },
        ],
        answers: vec![
            Answer {
                name: labels(&["x"]),
                rrtype: 1,
                class: 1,
                ttl: 3600,
                length: 4,
                data: vec![192, 0, 2, 1],
            },
            Answer {
                name: Vec::new(),
                rrtype: 16,
                class: 1,
                ttl: 0x0102_0304,
                length: 0,
                data: Vec::new(),
            },
        ],
    }
}

#[test]
fn query_encodes_to_its_wire_form() {
    let mut buffer = [0xFFu8; 29];
    assert_eq!(query().pack(&mut buffer), Ok(29));
    assert_eq!(buffer, QUERY);
}

#[test]
fn query_decodes_from_its_wire_form() {
    assert_eq!(Message::unpack(&QUERY), Ok(query()));
}

#[test]
fn message_with_questions_only_goes_round() {
    let message = query();
    assert!(message.is_valid());
    let mut buffer = [0u8; 512];
    let written = message.pack(&mut buffer).unwrap();
    assert_eq!(Message::unpack(&buffer[..written]), Ok(message.clone()));
    assert_eq!(Message::unpack(&buffer), Ok(message));
}

#[test]
fn message_with_answers_goes_round() {
    let message = response();
    assert!(message.is_valid());
    let mut buffer = [0u8; 512];
    let written = message.pack(&mut buffer).unwrap();
    assert_eq!(written, 12 + 7 + 9 + 17 + 11);
    assert_eq!(&buffer[..4], &[0xBE, 0xEF, 0x95, 0xD3]);
    assert_eq!(&buffer[4..12], &[0, 2, 0, 2, 0, 7, 0, 9]);
    assert_eq!(Message::unpack(&buffer[..written]), Ok(message));
}

#[test]
fn decoding_then_encoding_then_decoding_loses_nothing() {
    // A response with one question and one answer, and bytes after them
    // that the two other counts announce.
    let mut received = Vec::new();
    received.extend_from_slice(&[0xAB, 0xCD, 0x81, 0x80, 0, 1, 0, 1, 0, 1, 0, 0]);
    received.extend_from_slice(&[1, b'a', 0, 0, 1, 0, 1]);
    received.extend_from_slice(&[1, b'a', 0, 0, 1, 0, 1, 0, 0, 0, 60, 0, 4, 10, 0, 0, 1]);
    received.extend_from_slice(&[0xDE, 0xAD, 0xBE, 0xEF]);

    let first = Message::unpack(&received).unwrap();
    assert_eq!(first.id, 0xABCD);
    assert_eq!(first.query_response, 1);
    assert_eq!(first.recursion_desired, 1);
    assert_eq!(first.recursion_available, 1);
    assert_eq!(first.ns_count, 1);
    assert_eq!(first.ar_count, 0);
    assert_eq!(first.questions.len(), 1);
    assert_eq!(first.answers.len(), 1);
    assert_eq!(first.answers[0].ttl, 60);
    assert_eq!(first.answers[0].data, vec![10, 0, 0, 1]);

    let mut buffer = [0u8; 64];
    let written = first.pack(&mut buffer).unwrap();
    assert_eq!(written, 36);
    assert_eq!(&buffer[..written], &received[..36]);
    assert_eq!(Message::unpack(&buffer[..written]), Ok(first));
}

#[test]
fn header_flags_are_unpacked_at_their_bits() {
    let mut buffer = [0u8; 12];
    buffer[2] = 0x04;
    let m = Message::unpack(&buffer).unwrap();
    assert_eq!(m.authoritative_answer, 1);
    assert_eq!(m.query_response + m.operation_code + m.truncation_flag, 0);
    assert_eq!(m.recursion_desired + m.recursion_available + m.unused + m.error_code, 0);

    buffer[2] = 0x02;
    assert_eq!(Message::unpack(&buffer).unwrap().truncation_flag, 1);
    buffer[2] = 0x01;
    assert_eq!(Message::unpack(&buffer).unwrap().recursion_desired, 1);
    buffer[2] = 0x00;
    buffer[3] = 0x80;
    assert_eq!(Message::unpack(&buffer).unwrap().recursion_available, 1);
    buffer[2] = 0x78;
    buffer[3] = 0x7F;
    let m = Message::unpack(&buffer).unwrap();
    assert_eq!(m.operation_code, 15);
    assert_eq!(m.unused, 7);
    assert_eq!(m.error_code, 15);
    assert_eq!(m.query_response, 0);
}

#[test]
fn a_buffer_shorter_than_the_header_is_truncated() {
    let full = [0u8; 12];
    for size in 0..12 {
        assert_eq!(Message::unpack(&full[..size]), Err(DecodeError::TruncatedBuffer));
    }
    assert!(Message::unpack(&full).is_ok());
}

#[test]
fn a_message_cut_short_is_truncated() {
    for cut in 0..QUERY.len() {
        assert_eq!(Message::unpack(&QUERY[..cut]), Err(DecodeError::TruncatedBuffer));
    }
    let mut buffer = [0u8; 128];
    let written = response().pack(&mut buffer).unwrap();
    for cut in 0..written {
        assert_eq!(Message::unpack(&buffer[..cut]), Err(DecodeError::TruncatedBuffer));
    }
}

#[test]
fn counts_are_trusted() {
    // The header announces two questions where there is one.
    let mut more = QUERY;
    more[5] = 2;
    assert_eq!(Message::unpack(&more), Err(DecodeError::TruncatedBuffer));
    // It announces an answer where there is none.
    let mut answer = QUERY;
    answer[7] = 1;
    assert_eq!(Message::unpack(&answer), Err(DecodeError::TruncatedBuffer));
    // It announces none where there is one: the question is not read.
    let mut none = QUERY;
    none[5] = 0;
    let m = Message::unpack(&none).unwrap();
    assert_eq!(m.question_count, 0);
    assert!(m.questions.is_empty());
}

#[test]
fn authority_and_additional_counts_are_kept_and_their_records_not_read() {
    let mut buffer = [0u8; 16];
    buffer[9] = 3;
    buffer[10] = 0x01;
    buffer[11] = 0x02;
    buffer[12] = 0xC0;
    let m = Message::unpack(&buffer).unwrap();
    assert_eq!(m.ns_count, 3);
    assert_eq!(m.ar_count, 0x0102);
    assert!(m.questions.is_empty());
    assert!(m.answers.is_empty());
}

#[test]
fn a_pointer_in_a_question_is_invalid() {
    let mut buffer = QUERY;
    buffer[12] = 0xC0;
    assert_eq!(Message::unpack(&buffer), Err(DecodeError::InvalidLabel));
}

#[test]
fn a_pointer_in_an_answer_is_invalid() {
    // The usual shape of a response from a server that compresses names.
    let mut received = Vec::new();
    received.extend_from_slice(&[0, 1, 0x81, 0x80, 0, 1, 0, 1, 0, 0, 0, 0]);
    received.extend_from_slice(&[1, b'a', 0, 0, 1, 0, 1]);
    received.extend_from_slice(&[0xC0, 0x0C, 0, 1, 0, 1, 0, 0, 0, 60, 0, 4, 10, 0, 0, 1]);
    assert_eq!(Message::unpack(&received), Err(DecodeError::InvalidLabel));
}

#[test]
fn a_buffer_too_small_for_the_message_is_left_alone() {
    let message = query();
    for size in 0..29 {
        let mut buffer = vec![0x77u8; size];
        assert_eq!(message.pack(&mut buffer), Err(EncodeError::BufferTooSmall));
        assert_eq!(buffer, vec![0x77u8; size]);
    }
}

#[test]
fn bytes_after_the_message_are_left_alone() {
    let mut buffer = [0x77u8; 32];
    assert_eq!(query().pack(&mut buffer), Ok(29));
    assert_eq!(&buffer[..29], &QUERY);
    assert_eq!(&buffer[29..], &[0x77, 0x77, 0x77]);
}

#[test]
fn message_length_is_header_plus_records() {
    assert_eq!(query().len_within(29), Some(29));
    assert_eq!(query().len_within(usize::MAX), Some(29));
    assert_eq!(query().len_within(28), None);
    assert_eq!(query().len_within(12), None);
    assert_eq!(query().len_within(11), None);
    assert_eq!(query().len_within(0), None);
    assert_eq!(response().len_within(56), Some(56));
    assert_eq!(response().len_within(55), None);
}

#[test]
fn validity_wants_counts_flags_and_records_right() {
    assert!(query().is_valid());
    assert!(response().is_valid());

    let mut m = query();
    m.question_count = 2;
    assert!(!m.is_valid());

    let mut m = query();
    m.answer_count = 1;
    assert!(!m.is_valid());

    let mut m = query();
    m.operation_code = 16;
    assert!(!m.is_valid());

    let mut m = query();
    m.query_response = 2;
    assert!(!m.is_valid());

    let mut m = query();
    m.questions[0].name.push(String::new());
    assert!(!m.is_valid());

    let mut m = response();
    m.answers[0].length = 5;
    assert!(!m.is_valid());

    let mut m = response();
    m.ns_count = 0xFFFF;
    m.ar_count = 0xFFFF;
    m.id = 0xFFFF;
    assert!(m.is_valid());
}

#[test]
fn flags_of_a_message_are_its_eight_fields() {
    let fields = response().flags();
    assert_eq!(fields.query_response, 1);
    assert_eq!(fields.operation_code, 2);
    assert_eq!(fields.authoritative_answer, 1);
    assert_eq!(fields.truncation_flag, 0);
    assert_eq!(fields.recursion_desired, 1);
    assert_eq!(fields.recursion_available, 1);
    assert_eq!(fields.unused, 5);
    assert_eq!(fields.error_code, 3);
}

#[test]
fn what_decoding_gives_is_valid() {
    let mut buffer = [0u8; 128];
    let written = response().pack(&mut buffer).unwrap();
    let decoded = Message::unpack(&buffer[..written]).unwrap();
    assert!(decoded.is_valid());
    assert_eq!(decoded.len_within(written), Some(written));
}

#[test]
fn the_largest_count_of_questions_goes_round() {
    let mut message = query();
    message.questions = vec![Question { name: labels(&["q"]), qtype: 1, qclass: 1 }; 65535];
    message.question_count = 65535;
    assert!(message.is_valid());
    let mut buffer = vec![0u8; 12 + 7 * 65535];
    assert_eq!(message.pack(&mut buffer), Ok(12 + 7 * 65535));
    assert_eq!(Message::unpack(&buffer), Ok(message));
}
