//! Fields of consecutive bits inside one 64-bit word.
use vstd::arithmetic::power2::{lemma2_to64, pow2};
use vstd::bits::{lemma_u64_pow2_no_overflow, lemma_u64_shl_is_mul};
use vstd::prelude::*;

verus! {

/// The word whose lowest `width` bits are set and no others.
pub open spec fn low_mask(width: u64) -> u64 {
    if width >= 64 {
        0xffff_ffff_ffff_ffffu64
    } else {
        ((1u64 << width) - 1) as u64
    }
}

/// The `width` bits of `word` that start at bit `offset`, as a number.
pub open spec fn field(word: u64, offset: u64, width: u64) -> u64 {
    (word >> offset) & low_mask(width)
}

/// `word` with the `width` bits that start at bit `offset` replaced by `value`.
pub open spec fn with_field(word: u64, offset: u64, width: u64, value: u64) -> u64 {
    (word & !(low_mask(width) << offset)) | (value << offset)
}

pub proof fn lemma_field_of_with_field(word: u64, offset: u64, width: u64, value: u64)
    by (bit_vector)
    requires
        offset < 64,
        width <= 64,
        offset + width <= 64,
        value <= low_mask(width),
    ensures
        field(with_field(word, offset, width, value), offset, width) == value,
{
}

pub proof fn lemma_field_apart(word: u64, offset: u64, width: u64, value: u64, at: u64, span: u64)
    by (bit_vector)
    requires
        offset < 64,
        offset + width <= 64,
        at < 64,
        at + span <= 64,
        at + span <= offset || offset + width <= at,
        value <= low_mask(width),
    ensures
        field(with_field(word, offset, width, value), at, span) == field(word, at, span),
{
}

pub proof fn lemma_field_bound(word: u64, offset: u64, width: u64)
    by (bit_vector)
    requires
        offset < 64,
    ensures
        field(word, offset, width) <= low_mask(width),
{
}

pub proof fn lemma_split_join(value: u64, width: u64, low: u64)
    by (bit_vector)
    requires
        1 <= low,
        low < width,
        width <= 64,
        value <= low_mask(width),
    ensures
        (value & low_mask(low)) | ((value >> low) << low) == value,
        value & low_mask(low) <= low_mask(low),
        value >> low <= low_mask((width - low) as u64),
{
}

pub proof fn lemma_join_bound(a: u64, b: u64, low: u64, high: u64)
    by (bit_vector)
    requires
        1 <= low,
        1 <= high,
        low + high <= 64,
        a <= low_mask(low),
        b <= low_mask(high),
    ensures
        a | (b << low) <= low_mask((low + high) as u64),
        (a | (b << low)) & low_mask(low) == a,
        (a | (b << low)) >> low == b,
{
}

/// A write to a field leaves the bits above the field as they were.
pub proof fn lemma_with_field_keeps_above(
    word: u64,
    offset: u64,
    width: u64,
    value: u64,
    covered: u64,
)
    by (bit_vector)
    requires
        offset < 64,
        offset + width <= covered,
        covered <= 64,
        value <= low_mask(width),
    ensures
        with_field(word, offset, width, value) & !low_mask(covered) == word & !low_mask(covered),
{
}

/// Two words that agree below a field and in the field agree up to its end.
pub proof fn lemma_agree_extend(first: u64, second: u64, offset: u64, width: u64)
    by (bit_vector)
    requires
        offset < 64,
        offset + width <= 64,
        (first ^ second) & low_mask(offset) == 0,
        field(first, offset, width) == field(second, offset, width),
    ensures
        (first ^ second) & low_mask((offset + width) as u64) == 0,
{
}

/// Two words that agree in their low bits and have nothing above them are
/// the same word.
pub proof fn lemma_agree_all(first: u64, second: u64, covered: u64)
    by (bit_vector)
    requires
        covered <= 64,
        (first ^ second) & low_mask(covered) == 0,
        first & !low_mask(covered) == 0,
        second & !low_mask(covered) == 0,
    ensures
        first == second,
{
}

/// Any two words agree in their lowest zero bits, and a zero word has
/// nothing above any bit.
pub proof fn lemma_agree_none(first: u64, second: u64, covered: u64)
    by (bit_vector)
    ensures
        (first ^ second) & low_mask(0) == 0,
        0u64 & !low_mask(covered) == 0,
{
}

/// The low mask of a width is one less than two to the power of the width.
pub proof fn lemma_low_mask_is_power(width: nat)
    requires
        width <= 64,
    ensures
        low_mask(width as u64) == pow2(width) - 1,
{
    lemma2_to64();
    if width < 64 {
        lemma_u64_pow2_no_overflow(width);
        lemma_u64_shl_is_mul(1u64, width as u64);
    }
}

} // verus!
