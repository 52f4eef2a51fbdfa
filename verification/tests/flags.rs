use dns_codec::dns::flags::{pack_flags, unpack_flags, Flags};
use dns_codec::dns::message::Message;

fn no_flags() -> Flags {
    Flags {
        query_response: 0,
        operation_code: 0,
        authoritative_answer: 0,
        truncation_flag: 0,
        recursion_desired: 0,
        recursion_available: 0,
        unused: 0,
        error_code: 0,
    }
}

fn message_with(fields: Flags) -> Message {
    Message {
        id: 0,
        query_response: fields.query_response,
        operation_code: fields.operation_code,
        authoritative_answer: fields.authoritative_answer,
        truncation_flag: fields.truncation_flag,
        recursion_desired: fields.recursion_desired,
        recursion_available: fields.recursion_available,
        unused: fields.unused,
        error_code: fields.error_code,
        question_count: 0,
        answer_count: 0,
        ns_count: 0,
        ar_count: 0,
        questions: Vec::new(),
        answers: Vec::new(),
    }
}

/// Packs `fields` alone and inside a message, checks the word both ways,
/// and checks that the word gives the fields back both ways.
fn check_word(fields: Flags, word: u16) {
    assert_eq!(pack_flags(&fields), word);
    assert_eq!(unpack_flags(word), fields);

    let message = message_with(fields);
    let mut buffer = [0u8; 12];
    assert_eq!(message.pack(&mut buffer), Ok(12));
    assert_eq!(buffer[2], (word >> 8) as u8);
    assert_eq!(buffer[3], (word & 0xFF) as u8);
    assert_eq!(Message::unpack(&buffer), Ok(message));
}

#[test]
fn no_field_set_is_zero() {
    check_word(no_flags(), 0x0000);
}

#[test]
fn query_response_is_bit_15() {
    check_word(Flags { query_response: 1, ..no_flags() }, 0x8000);
}

#[test]
fn operation_code_is_bits_14_to_11() {
    check_word(Flags { operation_code: 1, ..no_flags() }, 0x0800);
    check_word(Flags { operation_code: 15, ..no_flags() }, 0x7800);
}

#[test]
fn authoritative_answer_is_bit_10() {
    check_word(Flags { authoritative_answer: 1, ..no_flags() }, 0x0400);
}

#[test]
fn truncation_flag_is_bit_9() {
    check_word(Flags { truncation_flag: 1, ..no_flags() }, 0x0200);
}

#[test]
fn recursion_desired_is_bit_8() {
    check_word(Flags { recursion_desired: 1, ..no_flags() }, 0x0100);
}

#[test]
fn recursion_available_is_bit_7() {
    check_word(Flags { recursion_available: 1, ..no_flags() }, 0x0080);
}

#[test]
fn unused_is_bits_6_to_4() {
    check_word(Flags { unused: 1, ..no_flags() }, 0x0010);
    check_word(Flags { unused: 7, ..no_flags() }, 0x0070);
}

#[test]
fn error_code_is_bits_3_to_0() {
    check_word(Flags { error_code: 1, ..no_flags() }, 0x0001);
    check_word(Flags { error_code: 15, ..no_flags() }, 0x000F);
}

#[test]
fn every_field_at_its_largest_fills_the_word() {
    let all = Flags {
        query_response: 1,
        operation_code: 15,
        authoritative_answer: 1,
        truncation_flag: 1,
        recursion_desired: 1,
        recursion_available: 1,
        unused: 7,
        error_code: 15,
    };
    check_word(all, 0xFFFF);
}

#[test]
fn usual_response_flags() {
    let fields = Flags {
        query_response: 1,
        recursion_desired: 1,
        recursion_available: 1,
        error_code: 3,
        ..no_flags()
    };
    check_word(fields, 0x8183);
}

#[test]
fn every_word_survives_unpacking_and_packing() {
    for word in 0..=u16::MAX {
        let fields = unpack_flags(word);
        assert!(fields.is_valid());
        assert_eq!(pack_flags(&fields), word);
    }
}

#[test]
fn fields_that_do_not_fit_are_not_valid() {
    assert!(no_flags().is_valid());
    assert!(!Flags { query_response: 2, ..no_flags() }.is_valid());
    assert!(!Flags { operation_code: 16, ..no_flags() }.is_valid());
    assert!(!Flags { authoritative_answer: 2, ..no_flags() }.is_valid());
    assert!(!Flags { truncation_flag: 2, ..no_flags() }.is_valid());
    assert!(!Flags { recursion_desired: 2, ..no_flags() }.is_valid());
    assert!(!Flags { recursion_available: 2, ..no_flags() }.is_valid());
    assert!(!Flags { unused: 8, ..no_flags() }.is_valid());
    assert!(!Flags { error_code: 16, ..no_flags() }.is_valid());
}
