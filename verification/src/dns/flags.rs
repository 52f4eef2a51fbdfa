//! The flags word of the header: eight narrow fields in sixteen bits.
//!
//! | bits  | field                  |
//! |-------|------------------------|
//! | 15    | `query_response`       |
//! | 14–11 | `operation_code`       |
//! | 10    | `authoritative_answer` |
//! | 9     | `truncation_flag`      |
//! | 8     | `recursion_desired`    |
//! | 7     | `recursion_available`  |
//! | 6–4   | `unused`               |
//! | 3–0   | `error_code`           |

use vstd::prelude::*;

verus! {

/// The fields of the flags word, each held in the low bits of a `u16`.
#[derive(Clone, Copy, Debug, PartialEq, Eq, Structural)]
pub struct Flags {
    /// One bit: 0 in a query, 1 in a response.
    pub query_response: u16,
    /// Four bits: the kind of query.
    pub operation_code: u16,
    /// One bit.
    pub authoritative_answer: u16,
    /// One bit.
    pub truncation_flag: u16,
    /// One bit.
    pub recursion_desired: u16,
    /// One bit.
    pub recursion_available: u16,
    /// Three reserved bits.
    pub unused: u16,
    /// Four bits: the response code.
    pub error_code: u16,
}

/// The `width` bits of `word` that start at bit `low`.
pub open spec fn bit_field(word: u16, low: u16, width: u16) -> u16 {
    (word >> low) & (((1u16 << width) - 1) as u16)
}

impl Flags {
    /// Every field fits the number of bits that the word has for it.
    pub open spec fn wf(self) -> bool {
        &&& self.query_response <= 1
        &&& self.operation_code <= 15
        &&& self.authoritative_answer <= 1
        &&& self.truncation_flag <= 1
        &&& self.recursion_desired <= 1
        &&& self.recursion_available <= 1
        &&& self.unused <= 7
        &&& self.error_code <= 15
    }

    /// The word that holds each field at its place.
    pub open spec fn word(self) -> u16 {
        self.query_response << 15 | self.operation_code << 11 | self.authoritative_answer << 10
            | self.truncation_flag << 9 | self.recursion_desired << 8 | self.recursion_available
            << 7 | self.unused << 4 | self.error_code
    }

    /// The fields that `word` holds.
    pub open spec fn of_word(word: u16) -> Flags {
        Flags {
            query_response: bit_field(word, 15, 1),
            operation_code: bit_field(word, 11, 4),
            authoritative_answer: bit_field(word, 10, 1),
            truncation_flag: bit_field(word, 9, 1),
            recursion_desired: bit_field(word, 8, 1),
            recursion_available: bit_field(word, 7, 1),
            unused: bit_field(word, 4, 3),
            error_code: bit_field(word, 0, 4),
        }
    }

    /// Whether every field fits its bits.
    pub fn is_valid(&self) -> (b: bool)
        ensures
            b == self.wf(),
    {
        self.query_response <= 1 && self.operation_code <= 15 && self.authoritative_answer <= 1
            && self.truncation_flag <= 1 && self.recursion_desired <= 1
            && self.recursion_available <= 1 && self.unused <= 7 && self.error_code <= 15
    }
}

/// Packs the fields into the flags word.
pub fn pack_flags(fields: &Flags) -> (word: u16)
    requires
        fields.wf(),
    ensures
        word == fields.word(),
{
    let mut body: u16 = 0;
    body = body | fields.query_response << 15;
    body = body | fields.operation_code << 11;
    body = body | fields.authoritative_answer << 10;
    body = body | fields.truncation_flag << 9;
    body = body | fields.recursion_desired << 8;
    body = body | fields.recursion_available << 7;
    body = body | fields.unused << 4;
    body = body | fields.error_code;
    proof {
        let qr = fields.query_response;
        let op = fields.operation_code;
        let aa = fields.authoritative_answer;
        let tc = fields.truncation_flag;
        let rd = fields.recursion_desired;
        let ra = fields.recursion_available;
        let z = fields.unused;
        let rc = fields.error_code;
        assert((((((((0u16 | qr << 15) | op << 11) | aa << 10) | tc << 9) | rd << 8) | ra << 7) | z
            << 4) | rc == qr << 15 | op << 11 | aa << 10 | tc << 9 | rd << 8 | ra << 7 | z << 4
            | rc) by (bit_vector);
    }
    body
}

/// Unpacks the flags word into its fields.
pub fn unpack_flags(word: u16) -> (fields: Flags)
    ensures
        fields == Flags::of_word(word),
        fields.wf(),
{
    proof {
        lemma_word_round_trip(word);
        assert((word >> 15) & 1 == bit_field(word, 15, 1) && (word >> 11) & 15 == bit_field(
            word,
            11,
            4,
        ) && (word >> 10) & 1 == bit_field(word, 10, 1) && (word >> 9) & 1 == bit_field(word, 9, 1)
            && (word >> 8) & 1 == bit_field(word, 8, 1) && (word >> 7) & 1 == bit_field(word, 7, 1)
            && (word >> 4) & 7 == bit_field(word, 4, 3) && word & 15 == bit_field(word, 0, 4))
            by (bit_vector);
    }
    Flags {
        query_response: (word >> 15) & 1,
        operation_code: (word >> 11) & 15,
        authoritative_answer: (word >> 10) & 1,
        truncation_flag: (word >> 9) & 1,
        recursion_desired: (word >> 8) & 1,
        recursion_available: (word >> 7) & 1,
        unused: (word >> 4) & 7,
        error_code: word & 15,
    }
}

/// Unpacking the word of fields that fit their bits gives the fields back.
pub proof fn lemma_flags_round_trip(f: Flags)
    requires
        f.wf(),
    ensures
        Flags::of_word(f.word()) == f,
{
    let qr = f.query_response;
    let op = f.operation_code;
    let aa = f.authoritative_answer;
    let tc = f.truncation_flag;
    let rd = f.recursion_desired;
    let ra = f.recursion_available;
    let z = f.unused;
    let rc = f.error_code;
    let w = f.word();
    assert(bit_field(w, 15, 1) == qr && bit_field(w, 11, 4) == op && bit_field(w, 10, 1) == aa
        && bit_field(w, 9, 1) == tc && bit_field(w, 8, 1) == rd && bit_field(w, 7, 1) == ra
        && bit_field(w, 4, 3) == z && bit_field(w, 0, 4) == rc) by (bit_vector)
        requires
            w == qr << 15 | op << 11 | aa << 10 | tc << 9 | rd << 8 | ra << 7 | z << 4 | rc,
            qr <= 1,
            op <= 15,
            aa <= 1,
            tc <= 1,
            rd <= 1,
            ra <= 1,
            z <= 7,
            rc <= 15,
    ;
}

/// The fields of any word fit their bits, and packing them gives the word
/// back: the eight fields cover the sixteen bits, each bit once.
pub proof fn lemma_word_round_trip(w: u16)
    ensures
        Flags::of_word(w).wf(),
        Flags::of_word(w).word() == w,
{
    let qr = bit_field(w, 15, 1);
    let op = bit_field(w, 11, 4);
    let aa = bit_field(w, 10, 1);
    let tc = bit_field(w, 9, 1);
    let rd = bit_field(w, 8, 1);
    let ra = bit_field(w, 7, 1);
    let z = bit_field(w, 4, 3);
    let rc = bit_field(w, 0, 4);
    assert(qr <= 1 && op <= 15 && aa <= 1 && tc <= 1 && rd <= 1 && ra <= 1 && z <= 7 && rc <= 15
        && (qr << 15 | op << 11 | aa << 10 | tc << 9 | rd << 8 | ra << 7 | z << 4 | rc) == w)
        by (bit_vector)
        requires
            qr == bit_field(w, 15, 1),
            op == bit_field(w, 11, 4),
            aa == bit_field(w, 10, 1),
            tc == bit_field(w, 9, 1),
            rd == bit_field(w, 8, 1),
            ra == bit_field(w, 7, 1),
            z == bit_field(w, 4, 3),
            rc == bit_field(w, 0, 4),
    ;
}

/// The word of fields that fit their bits is the sum of the fields, each
/// times the weight of its lowest bit: no field reaches into another's
/// bits, and a field that is set alone sets its own bits and no others.
pub proof fn lemma_word_is_weighted_sum(f: Flags)
    requires
        f.wf(),
    ensures
        f.word() == f.query_response * 0x8000 + f.operation_code * 0x800 + f.authoritative_answer
            * 0x400 + f.truncation_flag * 0x200 + f.recursion_desired * 0x100
            + f.recursion_available * 0x80 + f.unused * 0x10 + f.error_code,
{
    let qr = f.query_response;
    let op = f.operation_code;
    let aa = f.authoritative_answer;
    let tc = f.truncation_flag;
    let rd = f.recursion_desired;
    let ra = f.recursion_available;
    let z = f.unused;
    let rc = f.error_code;
    assert((qr << 15 | op << 11 | aa << 10 | tc << 9 | rd << 8 | ra << 7 | z << 4 | rc) == qr
        * 0x8000 + op * 0x800 + aa * 0x400 + tc * 0x200 + rd * 0x100 + ra * 0x80 + z * 0x10 + rc)
        by (bit_vector)
        requires
            qr <= 1,
            op <= 15,
            aa <= 1,
            tc <= 1,
            rd <= 1,
            ra <= 1,
            z <= 7,
            rc <= 15,
    ;
}

} // verus!
