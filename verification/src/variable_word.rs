//! Register widths that need not be a power of two, each with the smallest
//! native integer that holds it.
use crate::bitfield::low_mask;
use vstd::prelude::*;

verus! {

/// A value did not fit the width that it was to be narrowed to.
#[derive(Clone, Copy, Debug, PartialEq, Eq, Structural)]
pub struct NarrowingError {
    /// The value that was refused.
    pub value: u64,
    /// The width, in bits, that it exceeds.
    pub number_of_bits: u8,
}

/// A width of 1 to 64 bits, together with the native integer that carries a
/// value of that width.
pub trait VariableWord: Sized {
    /// The native integer that carries a value of this width.
    type Word;

    /// The width in bits.
    spec fn spec_number_of_bits() -> nat;

    /// The number that a native word stands for.
    spec fn word_value(word: Self::Word) -> nat;

    /// The width is at least one bit and at most a whole 64-bit word.
    proof fn lemma_number_of_bits()
        ensures
            1 <= Self::spec_number_of_bits() <= 64,
    ;

    /// The width in bits.
    fn number_of_bits() -> (bits: u8)
        ensures
            bits == Self::spec_number_of_bits(),
    ;

    /// The word with exactly the lowest `number_of_bits` bits set.
    fn mask() -> (mask: u64)
        ensures
            mask == low_mask(Self::spec_number_of_bits() as u64),
    ;

    /// Number of whole values of this width that one 64-bit word holds.
    fn number_of_entries() -> (entries: u8)
        ensures
            entries == 64nat / Self::spec_number_of_bits(),
    ;

    /// Narrows a 64-bit value to the native word. A value that needs more than
    /// `number_of_bits` bits is refused and handed back in the error.
    fn try_from_u64(value: u64) -> (word: Result<Self::Word, NarrowingError>)
        ensures
            word is Ok <==> value <= low_mask(Self::spec_number_of_bits() as u64),
            word matches Ok(w) ==> Self::word_value(w) == value,
            word matches Err(e) ==> e.value == value && e.number_of_bits
                == Self::spec_number_of_bits(),
    ;
}

/// Virtual word with 24 bits.
#[allow(non_camel_case_types)]
#[derive(Clone, Copy, Debug, Default)]
pub struct u24(u32);

/// Virtual word with 40 bits.
#[allow(non_camel_case_types)]
#[derive(Clone, Copy, Debug, Default)]
pub struct u40(u64);

/// Virtual word with 48 bits.
#[allow(non_camel_case_types)]
#[derive(Clone, Copy, Debug, Default)]
pub struct u48(u64);

/// Virtual word with 56 bits.
#[allow(non_camel_case_types)]
#[derive(Clone, Copy, Debug, Default)]
pub struct u56(u64);

proof fn lemma_masks()
    ensures
        low_mask(8) == 0xFF,
        low_mask(16) == 0xFFFF,
        low_mask(24) == 0xFF_FFFF,
        low_mask(32) == 0xFFFF_FFFF,
        low_mask(40) == 0xFF_FFFF_FFFF,
        low_mask(48) == 0xFFFF_FFFF_FFFF,
        low_mask(56) == 0xFF_FFFF_FFFF_FFFF,
        low_mask(64) == 0xFFFF_FFFF_FFFF_FFFF,
{
    assert(low_mask(8) == 0xFF) by (bit_vector);
    assert(low_mask(16) == 0xFFFF) by (bit_vector);
    assert(low_mask(24) == 0xFF_FFFF) by (bit_vector);
    assert(low_mask(32) == 0xFFFF_FFFF) by (bit_vector);
    assert(low_mask(40) == 0xFF_FFFF_FFFF) by (bit_vector);
    assert(low_mask(48) == 0xFFFF_FFFF_FFFF) by (bit_vector);
    assert(low_mask(56) == 0xFF_FFFF_FFFF_FFFF) by (bit_vector);
}

impl VariableWord for u8 {
    type Word = u8;

    open spec fn spec_number_of_bits() -> nat {
        8
    }

    open spec fn word_value(word: u8) -> nat {
        word as nat
    }

    proof fn lemma_number_of_bits() {
    }

    fn number_of_bits() -> (bits: u8) {
        8
    }

    fn mask() -> (mask: u64) {
        proof {
            lemma_masks();
        }
        0xFF
    }

    fn number_of_entries() -> (entries: u8) {
        8
    }

    fn try_from_u64(value: u64) -> (word: Result<u8, NarrowingError>) {
        proof {
            lemma_masks();
        }
        if value <= 0xFF {
            Ok(value as u8)
        } else {
            Err(NarrowingError { value, number_of_bits: 8 })
        }
    }
}

impl VariableWord for u16 {
    type Word = u16;

    open spec fn spec_number_of_bits() -> nat {
        16
    }

    open spec fn word_value(word: u16) -> nat {
        word as nat
    }

    proof fn lemma_number_of_bits() {
    }

    fn number_of_bits() -> (bits: u8) {
        16
    }

    fn mask() -> (mask: u64) {
        proof {
            lemma_masks();
        }
        0xFFFF
    }

    fn number_of_entries() -> (entries: u8) {
        4
    }

    fn try_from_u64(value: u64) -> (word: Result<u16, NarrowingError>) {
        proof {
            lemma_masks();
        }
        if value <= 0xFFFF {
            Ok(value as u16)
        } else {
            Err(NarrowingError { value, number_of_bits: 16 })
        }
    }
}

impl VariableWord for u32 {
    type Word = u32;

    open spec fn spec_number_of_bits() -> nat {
        32
    }

    open spec fn word_value(word: u32) -> nat {
        word as nat
    }

    proof fn lemma_number_of_bits() {
    }

    fn number_of_bits() -> (bits: u8) {
        32
    }

    fn mask() -> (mask: u64) {
        proof {
            lemma_masks();
        }
        0xFFFF_FFFF
    }

    fn number_of_entries() -> (entries: u8) {
        2
    }

    fn try_from_u64(value: u64) -> (word: Result<u32, NarrowingError>) {
        proof {
            lemma_masks();
        }
        if value <= 0xFFFF_FFFF {
            Ok(value as u32)
        } else {
            Err(NarrowingError { value, number_of_bits: 32 })
        }
    }
}

impl VariableWord for u64 {
    type Word = u64;

    open spec fn spec_number_of_bits() -> nat {
        64
    }

    open spec fn word_value(word: u64) -> nat {
        word as nat
    }

    proof fn lemma_number_of_bits() {
    }

    fn number_of_bits() -> (bits: u8) {
        64
    }

    fn mask() -> (mask: u64) {
        0xFFFF_FFFF_FFFF_FFFF
    }

    fn number_of_entries() -> (entries: u8) {
        1
    }

    fn try_from_u64(value: u64) -> (word: Result<u64, NarrowingError>) {
        Ok(value)
    }
}

impl VariableWord for u24 {
    type Word = u32;

    open spec fn spec_number_of_bits() -> nat {
        24
    }

    open spec fn word_value(word: u32) -> nat {
        word as nat
    }

    proof fn lemma_number_of_bits() {
    }

    fn number_of_bits() -> (bits: u8) {
        24
    }

    fn mask() -> (mask: u64) {
        proof {
            lemma_masks();
        }
        0xFF_FFFF
    }

    fn number_of_entries() -> (entries: u8) {
        2
    }

    fn try_from_u64(value: u64) -> (word: Result<u32, NarrowingError>) {
        proof {
            lemma_masks();
        }
        if value <= 0xFF_FFFF {
            Ok(value as u32)
        } else {
            Err(NarrowingError { value, number_of_bits: 24 })
        }
    }
}

impl VariableWord for u40 {
    type Word = u64;

    open spec fn spec_number_of_bits() -> nat {
        40
    }

    open spec fn word_value(word: u64) -> nat {
        word as nat
    }

    proof fn lemma_number_of_bits() {
    }

    fn number_of_bits() -> (bits: u8) {
        40
    }

    fn mask() -> (mask: u64) {
        proof {
            lemma_masks();
        }
        0xFF_FFFF_FFFF
    }

    fn number_of_entries() -> (entries: u8) {
        1
    }

    fn try_from_u64(value: u64) -> (word: Result<u64, NarrowingError>) {
        proof {
            lemma_masks();
        }
        if value <= 0xFF_FFFF_FFFF {
            Ok(value)
        } else {
            Err(NarrowingError { value, number_of_bits: 40 })
        }
    }
}

impl VariableWord for u48 {
    type Word = u64;

    open spec fn spec_number_of_bits() -> nat {
        48
    }

    open spec fn word_value(word: u64) -> nat {
        word as nat
    }

    proof fn lemma_number_of_bits() {
    }

    fn number_of_bits() -> (bits: u8) {
        48
    }

    fn mask() -> (mask: u64) {
        proof {
            lemma_masks();
        }
        0xFFFF_FFFF_FFFF
    }

    fn number_of_entries() -> (entries: u8) {
        1
    }

    fn try_from_u64(value: u64) -> (word: Result<u64, NarrowingError>) {
        proof {
            lemma_masks();
        }
        if value <= 0xFFFF_FFFF_FFFF {
            Ok(value)
        } else {
            Err(NarrowingError { value, number_of_bits: 48 })
        }
    }
}

impl VariableWord for u56 {
    type Word = u64;

    open spec fn spec_number_of_bits() -> nat {
        56
    }

    open spec fn word_value(word: u64) -> nat {
        word as nat
    }

    proof fn lemma_number_of_bits() {
    }

    fn number_of_bits() -> (bits: u8) {
        56
    }

    fn mask() -> (mask: u64) {
        proof {
            lemma_masks();
        }
        0xFF_FFFF_FFFF_FFFF
    }

    fn number_of_entries() -> (entries: u8) {
        1
    }

    fn try_from_u64(value: u64) -> (word: Result<u64, NarrowingError>) {
        proof {
            lemma_masks();
        }
        if value <= 0xFF_FFFF_FFFF_FFFF {
            Ok(value)
        } else {
            Err(NarrowingError { value, number_of_bits: 56 })
        }
    }
}

} // verus!
