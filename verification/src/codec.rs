//! Little-endian encoding of the fixed-width numeric values that the
//! merge operation works on, and the wrapping addition it applies.
//!
//! The merge treats a 4-byte value as a signed 32-bit little-endian
//! integer and adds with wraparound on overflow.  On the byte encodings
//! that is exactly unsigned addition modulo 2^32, so the specifications
//! speak of the unsigned word a value encodes.

use vstd::prelude::*;

use crate::types::NUMERIC_WIDTH;

verus! {

/// The unsigned 32-bit word that a 4-byte little-endian sequence encodes.
pub open spec fn word_of_le(s: Seq<u8>) -> u32
    recommends
        s.len() == NUMERIC_WIDTH,
{
    (s[0] + s[1] * 0x100 + s[2] * 0x1_0000 + s[3] * 0x100_0000) as u32
}

/// The 4-byte little-endian encoding of an unsigned 32-bit word.
pub open spec fn le_of_word(w: u32) -> Seq<u8> {
    seq![
        (w % 0x100) as u8,
        ((w / 0x100) % 0x100) as u8,
        ((w / 0x1_0000) % 0x100) as u8,
        ((w / 0x100_0000) % 0x100) as u8,
    ]
}

/// The word both merge operands add up to, modulo 2^32; on the signed
/// 32-bit reading of the bytes this is wrapping addition.
pub open spec fn merged_word(a: u32, b: u32) -> u32 {
    vstd::wrapping::u32_specs::wrapping_add(a, b)
}

/// Encoding a word and reading it back yields the word.
pub proof fn lemma_word_le_round_trip(w: u32)
    ensures
        word_of_le(le_of_word(w)) == w,
{
}

/// Reading a 4-byte value and encoding the word again yields the value.
pub proof fn lemma_le_word_round_trip(s: Seq<u8>)
    requires
        s.len() == NUMERIC_WIDTH,
    ensures
        le_of_word(word_of_le(s)) == s,
{
    assert(le_of_word(word_of_le(s)) =~= s);
}

/// Merging a word with some delta and then with the delta's additive
/// inverse modulo 2^32 restores the word.
pub proof fn lemma_merge_cancel(w: u32, a: u32, b: u32)
    requires
        (a + b) % 0x1_0000_0000 == 0,
    ensures
        merged_word(merged_word(w, a), b) == w,
{
}

/// Reads the word a 4-byte value encodes.
pub fn decode_word(v: &Vec<u8>) -> (w: u32)
    requires
        v@.len() == NUMERIC_WIDTH,
    ensures
        w == word_of_le(v@),
{
    let b0: u32 = v[0] as u32;
    let b1: u32 = v[1] as u32;
    let b2: u32 = v[2] as u32;
    let b3: u32 = v[3] as u32;
    b0 + b1 * 0x100 + b2 * 0x1_0000 + b3 * 0x100_0000
}

/// Writes the 4-byte value that encodes a word.
pub fn encode_word(w: u32) -> (v: Vec<u8>)
    ensures
        v@ == le_of_word(w),
        v@.len() == NUMERIC_WIDTH,
{
    let mut v: Vec<u8> = Vec::new();
    v.push((w % 0x100) as u8);
    v.push(((w / 0x100) % 0x100) as u8);
    v.push(((w / 0x1_0000) % 0x100) as u8);
    v.push(((w / 0x100_0000) % 0x100) as u8);
    proof {
        assert(v@ =~= le_of_word(w));
    }
    v
}

/// Adds two words modulo 2^32: the wrapping numeric merge.
pub fn merge_words(a: u32, b: u32) -> (r: u32)
    ensures
        r == merged_word(a, b),
{
    a.wrapping_add(b)
}

} // verus!
