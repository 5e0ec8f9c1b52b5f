//! Register widths of one to eight bits, named by types.
use vstd::prelude::*;

verus! {

/// A register width of at most eight bits, carried by a type.
pub trait Bits: Sized {
    /// The number of bits.
    spec fn spec_number_of_bits() -> nat;

    /// The width is at least one bit and at most eight.
    proof fn lemma_number_of_bits()
        ensures
            1 <= Self::spec_number_of_bits() <= 8,
    ;

    /// The number of bits.
    fn number_of_bits() -> (bits: u8)
        ensures
            bits == Self::spec_number_of_bits(),
    ;
}

/// A width of one bit.
#[derive(Debug, Default, Clone, Copy, PartialEq, Eq, PartialOrd, Ord, Hash)]
pub struct Bits1;

impl Bits for Bits1 {
    open spec fn spec_number_of_bits() -> nat {
        1
    }

    proof fn lemma_number_of_bits() {
    }

    fn number_of_bits() -> (bits: u8) {
        1
    }
}

/// A width of two bits.
#[derive(Debug, Default, Clone, Copy, PartialEq, Eq, PartialOrd, Ord, Hash)]
pub struct Bits2;

impl Bits for Bits2 {
    open spec fn spec_number_of_bits() -> nat {
        2
    }

    proof fn lemma_number_of_bits() {
    }

    fn number_of_bits() -> (bits: u8) {
        2
    }
}

/// A width of three bits.
#[derive(Debug, Default, Clone, Copy, PartialEq, Eq, PartialOrd, Ord, Hash)]
pub struct Bits3;

impl Bits for Bits3 {
    open spec fn spec_number_of_bits() -> nat {
        3
    }

    proof fn lemma_number_of_bits() {
    }

    fn number_of_bits() -> (bits: u8) {
        3
    }
}

/// A width of four bits.
#[derive(Debug, Default, Clone, Copy, PartialEq, Eq, PartialOrd, Ord, Hash)]
pub struct Bits4;

impl Bits for Bits4 {
    open spec fn spec_number_of_bits() -> nat {
        4
    }

    proof fn lemma_number_of_bits() {
    }

    fn number_of_bits() -> (bits: u8) {
        4
    }
}

/// A width of five bits.
#[derive(Debug, Default, Clone, Copy, PartialEq, Eq, PartialOrd, Ord, Hash)]
pub struct Bits5;

impl Bits for Bits5 {
    open spec fn spec_number_of_bits() -> nat {
        5
    }

    proof fn lemma_number_of_bits() {
    }

    fn number_of_bits() -> (bits: u8) {
        5
    }
}

/// A width of six bits.
#[derive(Debug, Default, Clone, Copy, PartialEq, Eq, PartialOrd, Ord, Hash)]
pub struct Bits6;

impl Bits for Bits6 {
    open spec fn spec_number_of_bits() -> nat {
        6
    }

    proof fn lemma_number_of_bits() {
    }

    fn number_of_bits() -> (bits: u8) {
        6
    }
}

/// A width of seven bits.
#[derive(Debug, Default, Clone, Copy, PartialEq, Eq, PartialOrd, Ord, Hash)]
pub struct Bits7;

impl Bits for Bits7 {
    open spec fn spec_number_of_bits() -> nat {
        7
    }

    proof fn lemma_number_of_bits() {
    }

    fn number_of_bits() -> (bits: u8) {
        7
    }
}

/// A width of eight bits.
#[derive(Debug, Default, Clone, Copy, PartialEq, Eq, PartialOrd, Ord, Hash)]
pub struct Bits8;

impl Bits for Bits8 {
    open spec fn spec_number_of_bits() -> nat {
        8
    }

    proof fn lemma_number_of_bits() {
    }

    fn number_of_bits() -> (bits: u8) {
        8
    }
}

} // verus!
