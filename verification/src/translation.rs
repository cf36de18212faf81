//! What an instruction translator shows for a value, around the instruction
//! decoder that does the decoding proper.

use vstd::prelude::*;

use crate::text::{chars_of, digits, pad_zeros, parse_u64, parse_u64_spec, render_digits, string_from_chars, zero_pad};

verus! {

/// How a translated value is drawn.
#[derive(Debug, Clone, Copy, PartialEq, Eq, Structural)]
pub enum InstructionKind {
    /// A decoded instruction.
    Normal,
    /// A word the decoder does not recognise.
    Warn,
}

/// The instruction word of a value given as its little-endian 64-bit digits:
/// the last (most significant) digit, 0 for no digits.
pub open spec fn word_from_digits_spec(digits: Seq<u64>) -> u64 {
    if digits.len() == 0 {
        0
    } else {
        digits.last()
    }
}

pub fn word_from_digits(digits: &[u64]) -> (w: u64)
    ensures
        w == word_from_digits_spec(digits@),
{
    if digits.len() == 0 {
        0
    } else {
        digits[digits.len() - 1]
    }
}

/// The instruction word written as binary text, 0 if the text is not a
/// binary number that fits.
pub open spec fn word_from_binary_spec(s: Seq<char>) -> u64 {
    match parse_u64_spec(s, 2) {
        Some(v) => v,
        None => 0,
    }
}

pub fn word_from_binary(s: &str) -> (w: u64)
    ensures
        w == word_from_binary_spec(s@),
{
    match parse_u64(&chars_of(s), 2) {
        Some(v) => v,
        None => 0,
    }
}

/// `UNKNOWN INSN (0x…)` with the word in lower-case hex, zero-padded to the
/// digits that `num_bits` bits take.
pub open spec fn unknown_text_spec(value: u64, num_bits: u32) -> Seq<char> {
    "UNKNOWN INSN (0x"@ + zero_pad(digits(value as nat, 16, false), ((num_bits + 3) / 4) as nat) + ")"@
}

pub fn unknown_instruction_text(value: u64, num_bits: u32) -> (s: String)
    ensures
        s@ == unknown_text_spec(value, num_bits),
{
    let width = ((num_bits as u64 + 3) / 4) as usize;
    let hex = string_from_chars(&pad_zeros(render_digits(value, 16, false), width));
    let mut s = "UNKNOWN INSN (0x".to_string();
    proof {
        vstd::string::to_string_from_display_ensures_for_str("UNKNOWN INSN (0x", s);
    }
    s.append(hex.as_str());
    s.append(")");
    s
}

/// What is shown for an instruction word: the decoder's text when it
/// recognised the word, else the word itself as a warning.
pub fn render_instruction(decoded: Option<String>, value: u64, num_bits: u32) -> (r: (String, InstructionKind))
    ensures
        decoded matches Some(t) ==> r.0@ == t@ && r.1 == InstructionKind::Normal,
        decoded is None ==> r.0@ == unknown_text_spec(value, num_bits) && r.1 == InstructionKind::Warn,
{
    match decoded {
        Some(text) => (text, InstructionKind::Normal),
        None => (unknown_instruction_text(value, num_bits), InstructionKind::Warn),
    }
}

} // verus!
