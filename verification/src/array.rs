//! Fixed-width registers stored side by side in 64-bit words.
//!
//! Two layouts are offered. In the padded layout a word holds as many whole
//! registers as fit and leaves the remaining high bits unused, so that a
//! register never leaves its word. In the packed layout the registers follow
//! each other without gaps, and a register may begin in one word and end in the
//! next.
use crate::bitfield::{
    field, lemma_agree_all, lemma_agree_extend, lemma_agree_none, lemma_field_apart,
    lemma_field_bound, lemma_field_of_with_field, lemma_join_bound, lemma_split_join,
    lemma_with_field_keeps_above, low_mask, with_field,
};
use crate::bits::Bits;
use crate::variable_word::VariableWord;
use vstd::prelude::*;
use vstd::std_specs::cmp::{PartialEqSpec, PartialEqSpecImpl};

verus! {

/// Why an array could not be made.
#[derive(Clone, Copy, Debug, PartialEq, Eq, Structural)]
pub enum ArrayError {
    /// The register width is not between 1 and 64 bits.
    UnsupportedWidth,
    /// The slots of the array could not be counted in a `usize`.
    TooManyRegisters,
}

/// The largest number of registers that an array holds: with the padding that
/// may follow them, their count still fits a `usize`.
pub open spec fn max_registers() -> nat {
    (usize::MAX - 64) as nat
}

/// In the padded layout a word holds at least one register, and the registers
/// of a word fit in it.
pub proof fn lemma_registers_per_word(bits: nat)
    requires
        1 <= bits <= 64,
    ensures
        1 <= registers_per_word(bits) <= 64,
        registers_per_word(bits) * bits <= 64,
{
    let r = registers_per_word(bits);
    assert(1 <= r <= 64 && r * bits <= 64) by (nonlinear_arith)
        requires
            1 <= bits <= 64,
            r == 64nat / bits,
    ;
}

/// Number of registers that begin in each word of the padded layout.
pub open spec fn registers_per_word(bits: nat) -> nat {
    64nat / bits
}

/// The bit at which register `index` begins, counted from bit 0 of word 0.
pub open spec fn position(index: nat, bits: nat, packed: bool) -> nat {
    if packed {
        index * bits
    } else {
        (index / registers_per_word(bits)) * 64 + (index % registers_per_word(bits)) * bits
    }
}

/// Number of words that hold `registers` registers.
pub open spec fn words_needed(registers: nat, bits: nat, packed: bool) -> nat {
    if packed {
        (registers * bits + 63) / 64
    } else {
        ((registers + registers_per_word(bits) - 1) / (registers_per_word(bits) as int)) as nat
    }
}

/// Number of whole registers for which `words` words have room.
pub open spec fn slots_in(words: nat, bits: nat, packed: bool) -> nat {
    if packed {
        (words * 64) / bits
    } else {
        words * registers_per_word(bits)
    }
}

/// The `bits` bits that begin at bit `position` of `words`, as a number. Where
/// they leave their word, the low part comes from the top of that word and the
/// high part from the bottom of the next.
pub open spec fn read_bits(words: Seq<u64>, position: nat, bits: nat) -> u64 {
    let k = (position / 64) as int;
    let offset = position % 64;
    if offset + bits <= 64 {
        field(words[k], offset as u64, bits as u64)
    } else {
        let low = (64 - offset) as nat;
        field(words[k], offset as u64, low as u64) | (field(
            words[k + 1],
            0,
            (bits - low) as u64,
        ) << (low as u64))
    }
}

/// `words` with the `bits` bits that begin at bit `position` replaced by
/// `value`, and every other bit kept.
pub open spec fn write_bits(words: Seq<u64>, position: nat, bits: nat, value: u64) -> Seq<u64> {
    let k = (position / 64) as int;
    let offset = position % 64;
    if offset + bits <= 64 {
        words.update(k, with_field(words[k], offset as u64, bits as u64, value))
    } else {
        let low = (64 - offset) as nat;
        words.update(
            k,
            with_field(words[k], offset as u64, low as u64, value & low_mask(low as u64)),
        ).update(k + 1, with_field(words[k + 1], 0, (bits - low) as u64, value >> (low as u64)))
    }
}

/// What is read at `q` after a write at `p`: the value written where the two
/// places are the same, and what was there before where they do not overlap.
pub proof fn lemma_read_after_write(words: Seq<u64>, p: nat, q: nat, bits: nat, value: u64)
    requires
        1 <= bits <= 64,
        p + bits <= words.len() * 64,
        q + bits <= words.len() * 64,
        value <= low_mask(bits as u64),
        p == q || p + bits <= q || q + bits <= p,
    ensures
        write_bits(words, p, bits, value).len() == words.len(),
        p == q ==> read_bits(write_bits(words, p, bits, value), q, bits) == value,
        p != q ==> read_bits(write_bits(words, p, bits, value), q, bits) == read_bits(
            words,
            q,
            bits,
        ),
{
    let kp = (p / 64) as int;
    let op = (p % 64) as u64;
    let kq = (q / 64) as int;
    let oq = (q % 64) as u64;
    let b = bits as u64;
    let after = write_bits(words, p, bits, value);
    if op + b <= 64 {
        let w = words[kp];
        if p == q {
            lemma_field_of_with_field(w, op, b, value);
        } else if oq + b <= 64 {
            if kq == kp {
                lemma_field_apart(w, op, b, value, oq, b);
            }
        } else {
            let lq = (64 - oq) as u64;
            let hq = (b - lq) as u64;
            if kq == kp {
                lemma_field_apart(w, op, b, value, oq, lq);
            }
            if kq + 1 == kp {
                lemma_field_apart(w, op, b, value, 0, hq);
            }
        }
    } else {
        let lp = (64 - op) as u64;
        let hp = (b - lp) as u64;
        let w0 = words[kp];
        let w1 = words[kp + 1];
        let v0 = value & low_mask(lp);
        let v1 = value >> lp;
        lemma_split_join(value, b, lp);
        if p == q {
            lemma_field_of_with_field(w0, op, lp, v0);
            lemma_field_of_with_field(w1, 0, hp, v1);
        } else if oq + b <= 64 {
            if kq == kp {
                lemma_field_apart(w0, op, lp, v0, oq, b);
            }
            if kq == kp + 1 {
                lemma_field_apart(w1, 0, hp, v1, oq, b);
            }
        } else {
            let lq = (64 - oq) as u64;
            let hq = (b - lq) as u64;
            if kq == kp + 1 {
                lemma_field_apart(w1, 0, hp, v1, oq, lq);
            }
            if kq + 1 == kp {
                lemma_field_apart(w0, op, lp, v0, 0, hq);
            }
        }
    }
}

/// A register read from the words never exceeds its width.
pub proof fn lemma_read_bound(words: Seq<u64>, p: nat, bits: nat)
    requires
        1 <= bits <= 64,
        p + bits <= words.len() * 64,
    ensures
        read_bits(words, p, bits) <= low_mask(bits as u64),
{
    let k = (p / 64) as int;
    let offset = (p % 64) as u64;
    let b = bits as u64;
    if offset + b <= 64 {
        lemma_field_bound(words[k], offset, b);
    } else {
        let low = (64 - offset) as u64;
        let high = (b - low) as u64;
        lemma_field_bound(words[k], offset, low);
        lemma_field_bound(words[k + 1], 0, high);
        lemma_join_bound(
            field(words[k], offset, low),
            field(words[k + 1], 0, high),
            low,
            high,
        );
    }
}

/// Distinct registers occupy bits that do not overlap.
pub proof fn lemma_positions_apart(i: nat, j: nat, bits: nat, packed: bool)
    requires
        1 <= bits <= 64,
        i < j,
    ensures
        position(i, bits, packed) + bits <= position(j, bits, packed),
{
    if packed {
        assert(i * bits + bits <= j * bits) by (nonlinear_arith)
            requires
                i + 1 <= j,
                1 <= bits,
        ;
    } else {
        let r = registers_per_word(bits);
        assert(1 <= r && r * bits <= 64) by (nonlinear_arith)
            requires
                1 <= bits <= 64,
                r == 64nat / bits,
        ;
        let (wi, si) = (i / r, i % r);
        let (wj, sj) = (j / r, j % r);
        assert(i == wi * r + si && j == wj * r + sj && si < r && sj < r && wi <= wj)
            by (nonlinear_arith)
            requires
                1 <= r,
                i < j,
                wi == i / r,
                si == i % r,
                wj == j / r,
                sj == j % r,
        ;
        if wi == wj {
            assert(si * bits + bits <= sj * bits) by (nonlinear_arith)
                requires
                    si + 1 <= sj,
                    1 <= bits,
            ;
        } else {
            assert(si * bits + bits <= 64) by (nonlinear_arith)
                requires
                    si + 1 <= r,
                    r * bits <= 64,
                    1 <= bits,
            ;
            assert(wi * 64 + 64 <= wj * 64);
        }
    }
}

/// Every register for which the words have room lies wholly inside them.
pub proof fn lemma_position_inside(i: nat, words: nat, bits: nat, packed: bool)
    requires
        1 <= bits <= 64,
        i < slots_in(words, bits, packed),
    ensures
        position(i, bits, packed) + bits <= words * 64,
        packed ==> position(i, bits, packed) + bits <= slots_in(words, bits, packed) * bits,
        !packed ==> position(i, bits, packed) % 64 + bits <= registers_per_word(bits) * bits,
        !packed ==> position(i, bits, packed) % 64 + bits <= 64,
        !packed ==> position(i, bits, packed) / 64 == i / registers_per_word(bits),
        !packed ==> position(i, bits, packed) % 64 == (i % registers_per_word(bits)) * bits,
{
    if packed {
        let s = slots_in(words, bits, packed);
        assert(s * bits <= words * 64) by (nonlinear_arith)
            requires
                s == (words * 64) / bits,
                1 <= bits,
        ;
        assert(i * bits + bits <= s * bits) by (nonlinear_arith)
            requires
                i + 1 <= s,
                1 <= bits,
        ;
    } else {
        let r = registers_per_word(bits);
        assert(1 <= r && r * bits <= 64) by (nonlinear_arith)
            requires
                1 <= bits <= 64,
                r == 64nat / bits,
        ;
        let (wi, si) = (i / r, i % r);
        assert(si < r && wi < words) by (nonlinear_arith)
            requires
                1 <= r,
                i < words * r,
                wi == i / r,
                si == i % r,
        ;
        assert(si * bits + bits <= r * bits && r * bits <= 64 && 0 <= si * bits)
            by (nonlinear_arith)
            requires
                0 <= si,
                si + 1 <= r,
                r * bits <= 64,
                1 <= bits,
        ;
        let off = si * bits;
        assert((wi * 64 + off) / 64 == wi && (wi * 64 + off) % 64 == off) by (nonlinear_arith)
            requires
                0 <= off < 64,
                0 <= wi,
        ;
    }
}

/// The words made for `registers` registers have room for all of them.
pub proof fn lemma_slots_cover(registers: nat, bits: nat, packed: bool)
    requires
        1 <= bits <= 64,
    ensures
        registers <= slots_in(words_needed(registers, bits, packed), bits, packed),
{
    let w = words_needed(registers, bits, packed);
    if packed {
        let t = registers * bits;
        assert(t <= w * 64);
        assert(registers <= (w * 64) / bits) by (nonlinear_arith)
            requires
                registers * bits <= w * 64,
                1 <= bits,
        ;
    } else {
        let r = registers_per_word(bits);
        assert(1 <= r) by (nonlinear_arith)
            requires
                1 <= bits <= 64,
                r == 64nat / bits,
        ;
        assert(registers <= w * r) by (nonlinear_arith)
            requires
                1 <= r,
                w == (registers + r - 1) / (r as int),
        ;
    }
}

/// Number of low bits of word `j` that belong to registers. In the padded
/// layout they are the bits of the registers of the word. In the packed layout
/// they are all bits, except in the last word, where the registers may end
/// before the word does.
pub open spec fn covered_bits(j: nat, words: nat, bits: nat, packed: bool) -> nat {
    if !packed {
        registers_per_word(bits) * bits
    } else if j + 1 < words {
        64
    } else {
        (slots_in(words, bits, true) * bits - (words - 1) * 64) as nat
    }
}

/// No bit is set outside the registers.
pub open spec fn canonical(words: Seq<u64>, bits: nat, packed: bool) -> bool {
    forall|j: int|
        0 <= j < words.len() ==> (#[trigger] words[j]) & !low_mask(
            covered_bits(j as nat, words.len(), bits, packed) as u64,
        ) == 0
}

/// Every word holds at least one bit of a register, and no more than it has.
pub proof fn lemma_covered_bits(j: nat, words: nat, bits: nat, packed: bool)
    requires
        1 <= bits <= 64,
        j < words,
    ensures
        1 <= covered_bits(j, words, bits, packed) <= 64,
        packed && j + 1 == words ==> slots_in(words, bits, true) * bits == (words - 1) * 64
            + covered_bits(j, words, bits, packed),
{
    lemma_registers_per_word(bits);
    if packed {
        let s = slots_in(words, bits, true);
        assert(s * bits <= words * 64 && words * 64 < s * bits + bits) by (nonlinear_arith)
            requires
                s == (words * 64) / bits,
                1 <= bits,
        ;
    } else {
        let r = registers_per_word(bits);
        assert(1 <= r * bits) by (nonlinear_arith)
            requires
                1 <= r,
                1 <= bits,
        ;
    }
}

/// A write to a register sets no bit outside the registers.
pub proof fn lemma_write_keeps_canonical(
    words: Seq<u64>,
    index: nat,
    bits: nat,
    packed: bool,
    value: u64,
)
    requires
        1 <= bits <= 64,
        index < slots_in(words.len(), bits, packed),
        value <= low_mask(bits as u64),
        canonical(words, bits, packed),
    ensures
        canonical(write_bits(words, position(index, bits, packed), bits, value), bits, packed),
{
    let p = position(index, bits, packed);
    let after = write_bits(words, p, bits, value);
    let k = (p / 64) as int;
    let offset = (p % 64) as u64;
    let b = bits as u64;
    lemma_position_inside(index, words.len(), bits, packed);
    assert forall|j: int| 0 <= j < after.len() implies (#[trigger] after[j]) & !low_mask(
        covered_bits(j as nat, after.len(), bits, packed) as u64,
    ) == 0 by {
        lemma_covered_bits(j as nat, words.len(), bits, packed);
        let covered = covered_bits(j as nat, words.len(), bits, packed) as u64;
        assert(words[j] & !low_mask(covered) == 0);
        if offset + b <= 64 {
            if j == k {
                lemma_with_field_keeps_above(words[k], offset, b, value, covered);
            }
        } else {
            let low = (64 - offset) as u64;
            let high = (b - low) as u64;
            lemma_split_join(value, b, low);
            if j == k {
                lemma_with_field_keeps_above(
                    words[k],
                    offset,
                    low,
                    value & low_mask(low),
                    covered,
                );
            } else if j == k + 1 {
                lemma_with_field_keeps_above(words[k + 1], 0, high, value >> low, covered);
            }
        }
    }
}

/// The words agree in every bit before bit `end`.
spec fn agree_before(first: Seq<u64>, second: Seq<u64>, end: nat) -> bool {
    &&& forall|j: int| 0 <= j < end / 64 ==> first[j] == second[j]
    &&& end % 64 != 0 ==> (first[(end / 64) as int] ^ second[(end / 64) as int]) & low_mask(
        (end % 64) as u64,
    ) == 0
}

/// Words that agree before a register and hold the same value in it agree up
/// to its end.
proof fn lemma_agree_register(first: Seq<u64>, second: Seq<u64>, p: nat, bits: nat)
    requires
        1 <= bits <= 64,
        first.len() == second.len(),
        p + bits <= first.len() * 64,
        agree_before(first, second, p),
        read_bits(first, p, bits) == read_bits(second, p, bits),
    ensures
        agree_before(first, second, p + bits),
{
    let k = (p / 64) as int;
    let offset = (p % 64) as u64;
    let b = bits as u64;
    let (x1, x2) = (first[k], second[k]);
    if offset == 0 {
        lemma_agree_none(x1, x2, 64);
    }
    if offset + b <= 64 {
        lemma_agree_extend(x1, x2, offset, b);
        if offset + b == 64 {
            assert(x1 == x2) by (bit_vector)
                requires
                    (x1 ^ x2) & low_mask(64) == 0,
            ;
        }
    } else {
        let low = (64 - offset) as u64;
        let high = (b - low) as u64;
        let (y1, y2) = (first[k + 1], second[k + 1]);
        lemma_field_bound(x1, offset, low);
        lemma_field_bound(x2, offset, low);
        lemma_field_bound(y1, 0, high);
        lemma_field_bound(y2, 0, high);
        lemma_join_bound(field(x1, offset, low), field(y1, 0, high), low, high);
        lemma_join_bound(field(x2, offset, low), field(y2, 0, high), low, high);
        lemma_agree_extend(x1, x2, offset, low);
        assert(x1 == x2) by (bit_vector)
            requires
                (x1 ^ x2) & low_mask(64) == 0,
        ;
        lemma_agree_none(y1, y2, 64);
        lemma_agree_extend(y1, y2, 0, high);
        assert((p + bits) / 64 == k + 1 && (p + bits) % 64 == high);
    }
}

/// In the packed layout, words that hold the same value in each of the first
/// `count` registers agree in every bit of those registers.
proof fn lemma_agree_packed(first: Seq<u64>, second: Seq<u64>, bits: nat, count: nat)
    requires
        1 <= bits <= 64,
        first.len() == second.len(),
        count <= slots_in(first.len(), bits, true),
        forall|i: nat|
            i < slots_in(first.len(), bits, true) ==> read_bits(
                first,
                #[trigger] position(i, bits, true),
                bits,
            ) == read_bits(second, position(i, bits, true), bits),
    ensures
        agree_before(first, second, count * bits),
    decreases count,
{
    if count == 0 {
        lemma_agree_none(first[0], second[0], 64);
    } else {
        let i = (count - 1) as nat;
        lemma_agree_packed(first, second, bits, i);
        lemma_position_inside(i, first.len(), bits, true);
        assert(position(i, bits, true) == i * bits);
        assert(i * bits + bits == count * bits) by (nonlinear_arith)
            requires
                i + 1 == count,
        ;
        lemma_agree_register(first, second, i * bits, bits);
    }
}

/// In the padded layout, two words that hold the same value in each of the
/// first `count` registers of word `j` agree in every bit of those registers.
proof fn lemma_agree_padded(first: Seq<u64>, second: Seq<u64>, bits: nat, j: nat, count: nat)
    requires
        1 <= bits <= 64,
        first.len() == second.len(),
        j < first.len(),
        count <= registers_per_word(bits),
        forall|i: nat|
            i < slots_in(first.len(), bits, false) ==> read_bits(
                first,
                #[trigger] position(i, bits, false),
                bits,
            ) == read_bits(second, position(i, bits, false), bits),
    ensures
        count * bits <= 64,
        (first[j as int] ^ second[j as int]) & low_mask((count * bits) as u64) == 0,
    decreases count,
{
    let r = registers_per_word(bits);
    lemma_registers_per_word(bits);
    let (x1, x2) = (first[j as int], second[j as int]);
    assert(count * bits <= r * bits) by (nonlinear_arith)
        requires
            count <= r,
            1 <= bits,
    ;
    if count == 0 {
        lemma_agree_none(x1, x2, 64);
    } else {
        let s = (count - 1) as nat;
        lemma_agree_padded(first, second, bits, j, s);
        let i = j * r + s;
        assert(i < first.len() * r && i / r == j && i % r == s) by (nonlinear_arith)
            requires
                i == j * r + s,
                s < r,
                j < first.len(),
        ;
        lemma_position_inside(i, first.len(), bits, false);
        let p = position(i, bits, false);
        assert(p == j * 64 + s * bits);
        assert(s * bits + bits == count * bits) by (nonlinear_arith)
            requires
                s + 1 == count,
        ;
        assert(p / 64 == j && p % 64 == s * bits);
        let offset = (s * bits) as u64;
        let width = bits as u64;
        assert(offset == s * bits && offset + width == count * bits);
        assert(read_bits(first, p, bits) == field(x1, offset, width));
        assert(read_bits(second, p, bits) == field(x2, offset, width));
        assert((x1 ^ x2) & low_mask(offset) == 0);
        lemma_agree_extend(x1, x2, offset, width);
        assert((offset + width) as u64 == (count * bits) as u64);
    }
}

/// The registers determine the words: words of one length that set no bit
/// outside the registers and hold the same value in every register are the
/// same words.
pub proof fn lemma_words_determined(first: Seq<u64>, second: Seq<u64>, bits: nat, packed: bool)
    requires
        1 <= bits <= 64,
        first.len() == second.len(),
        canonical(first, bits, packed),
        canonical(second, bits, packed),
        forall|i: nat|
            i < slots_in(first.len(), bits, packed) ==> read_bits(
                first,
                #[trigger] position(i, bits, packed),
                bits,
            ) == read_bits(second, position(i, bits, packed), bits),
    ensures
        first == second,
{
    let words = first.len();
    assert forall|j: int| 0 <= j < words implies first[j] == second[j] by {
        lemma_covered_bits(j as nat, words, bits, packed);
        let covered = covered_bits(j as nat, words, bits, packed) as u64;
        assert(first[j] & !low_mask(covered) == 0);
        assert(second[j] & !low_mask(covered) == 0);
        if packed {
            let slots = slots_in(words, bits, true);
            lemma_agree_packed(first, second, bits, slots);
            lemma_covered_bits((words - 1) as nat, words, bits, true);
            let end = slots * bits;
            if j + 1 < words {
                assert(j < end / 64);
            } else if end == words * 64 {
                assert(j < end / 64);
            } else {
                assert(end / 64 == j && end % 64 == covered);
                lemma_agree_all(first[j], second[j], covered);
            }
        } else {
            lemma_agree_padded(first, second, bits, j as nat, registers_per_word(bits));
            lemma_agree_all(first[j], second[j], covered);
        }
    }
    assert(first =~= second);
}

/// The word with its lowest `bits` bits set.
pub fn mask_of(bits: u8) -> (mask: u64)
    requires
        1 <= bits <= 64,
    ensures
        mask == low_mask(bits as u64),
{
    if bits >= 64 {
        u64::MAX
    } else {
        let b: u64 = bits as u64;
        assert(1 <= (1u64 << b)) by (bit_vector)
            requires
                b < 64,
        ;
        (1u64 << b) - 1
    }
}

/// An array of registers of one width, each of which holds a number below two
/// to the power of that width.
#[derive(Debug)]
pub struct Array {
    words: Vec<u64>,
    registers: usize,
    bits: u8,
    packed: bool,
}

impl View for Array {
    type V = Seq<u64>;

    /// The value of every slot, padding included, in the order of the indices.
    closed spec fn view(&self) -> Seq<u64> {
        Seq::new(
            slots_in(self.words@.len(), self.bits as nat, self.packed),
            |i: int|
                read_bits(
                    self.words@,
                    position(i as nat, self.bits as nat, self.packed),
                    self.bits as nat,
                ),
        )
    }
}

impl Array {
    /// Number of registers that the array was made for.
    pub closed spec fn number_of_registers(&self) -> nat {
        self.registers as nat
    }

    /// Width of one register in bits.
    pub closed spec fn number_of_bits(&self) -> nat {
        self.bits as nat
    }

    /// Whether registers may leave their word.
    pub closed spec fn is_packed(&self) -> bool {
        self.packed
    }

    /// Number of words behind the array.
    pub closed spec fn number_of_words(&self) -> nat {
        self.words@.len()
    }

    /// The largest value that a register holds.
    pub open spec fn max_value(&self) -> u64 {
        low_mask(self.number_of_bits() as u64)
    }

    /// The array has the words that its registers need, and no others, and
    /// no bit of them is set outside the registers.
    pub closed spec fn wf(&self) -> bool {
        &&& 1 <= self.bits <= 64
        &&& self.registers <= max_registers()
        &&& self.words@.len() == words_needed(
            self.registers as nat,
            self.bits as nat,
            self.packed,
        )
        &&& canonical(self.words@, self.bits as nat, self.packed)
    }

    /// What validity means for the lengths: the words are those that the
    /// registers need, the view has one entry for each slot in them, and no
    /// entry exceeds the register width.
    pub proof fn lemma_wf(&self)
        requires
            self.wf(),
        ensures
            1 <= self.number_of_bits() <= 64,
            self.number_of_registers() <= max_registers(),
            self.number_of_words() == words_needed(
                self.number_of_registers(),
                self.number_of_bits(),
                self.is_packed(),
            ),
            self@.len() == slots_in(
                self.number_of_words(),
                self.number_of_bits(),
                self.is_packed(),
            ),
            self.number_of_registers() <= self@.len(),
            forall|i: int| 0 <= i < self@.len() ==> #[trigger] self@[i] <= self.max_value(),
    {
        lemma_slots_cover(self.registers as nat, self.bits as nat, self.packed);
        assert forall|i: int| 0 <= i < self@.len() implies #[trigger] self@[i]
            <= self.max_value() by {
            lemma_position_inside(i as nat, self.words@.len(), self.bits as nat, self.packed);
            lemma_read_bound(
                self.words@,
                position(i as nat, self.bits as nat, self.packed),
                self.bits as nat,
            );
        }
    }

    /// An array of `registers` registers of `bits` bits each, all zero.
    pub fn new(registers: usize, bits: u8, packed: bool) -> (made: Result<Array, ArrayError>)
        ensures
            made is Ok <==> 1 <= bits <= 64 && registers <= max_registers(),
            made matches Err(e) ==> (e == ArrayError::UnsupportedWidth <==> !(1 <= bits <= 64)),
            made matches Ok(array) ==> {
                &&& array.wf()
                &&& array.number_of_registers() == registers
                &&& array.number_of_bits() == bits
                &&& array.is_packed() == packed
                &&& forall|i: int| 0 <= i < array@.len() ==> #[trigger] array@[i] == 0
            },
    {
        if bits < 1 || bits > 64 {
            return Err(ArrayError::UnsupportedWidth);
        }
        if registers > usize::MAX - 64 {
            return Err(ArrayError::TooManyRegisters);
        }
        proof {
            lemma_registers_per_word(bits as nat);
        }
        let count: usize = if packed {
            assert(registers * bits <= 0xffff_ffff_ffff_ffff * 64) by (nonlinear_arith)
                requires
                    registers <= 0xffff_ffff_ffff_ffff,
                    bits <= 64,
            ;
            let total: u128 = (registers as u128) * (bits as u128) + 63;
            let needed: u128 = total / 64;
            assert(needed <= registers) by (nonlinear_arith)
                requires
                    needed == (registers * bits + 63) / 64,
                    1 <= bits <= 64,
            ;
            needed as usize
        } else {
            let per_word: usize = 64 / (bits as usize);
            let r: usize = registers / per_word;
            assert(r * per_word <= registers && (registers + per_word - 1) / (per_word as int)
                <= r + 1 && (registers % per_word == 0 ==> (registers + per_word - 1) / (
            per_word as int) == r) && (registers % per_word != 0 ==> (registers + per_word - 1) / (
            per_word as int) == r + 1 && r < registers)) by (nonlinear_arith)
                requires
                    1 <= per_word,
                    r == registers / per_word,
            ;
            if registers % per_word == 0 {
                r
            } else {
                r + 1
            }
        };
        let words: Vec<u64> = vec![0u64; count];
        let array = Array { words, registers, bits, packed };
        proof {
            assert forall|j: int| 0 <= j < array.words@.len() implies (#[trigger] array.words@[j])
                & !low_mask(
                covered_bits(j as nat, array.words@.len(), bits as nat, packed) as u64,
            ) == 0 by {
                lemma_agree_none(
                    0,
                    0,
                    covered_bits(j as nat, array.words@.len(), bits as nat, packed) as u64,
                );
            }
            assert forall|i: int| 0 <= i < array@.len() implies #[trigger] array@[i] == 0 by {
                lemma_position_inside(i as nat, array.words@.len(), bits as nat, packed);
                lemma_zero_words_read_zero(
                    array.words@,
                    position(i as nat, bits as nat, packed),
                    bits as nat,
                );
            }
        }
        Ok(array)
    }

    /// An array of `registers` registers as wide as the word type `W`, all zero.
    pub fn with_word<W: VariableWord>(registers: usize, packed: bool) -> (made: Result<
        Array,
        ArrayError,
    >)
        ensures
            made is Ok <==> registers <= max_registers(),
            made matches Err(e) ==> e == ArrayError::TooManyRegisters,
            made matches Ok(array) ==> {
                &&& array.wf()
                &&& array.number_of_registers() == registers
                &&& array.number_of_bits() == W::spec_number_of_bits()
                &&& array.is_packed() == packed
                &&& forall|i: int| 0 <= i < array@.len() ==> #[trigger] array@[i] == 0
            },
    {
        proof {
            W::lemma_number_of_bits();
        }
        Array::new(registers, W::number_of_bits(), packed)
    }

    /// An array of `registers` registers of the width that the type `B` names,
    /// all zero.
    pub fn with_bits<B: Bits>(registers: usize, packed: bool) -> (made: Result<Array, ArrayError>)
        ensures
            made is Ok <==> registers <= max_registers(),
            made matches Err(e) ==> e == ArrayError::TooManyRegisters,
            made matches Ok(array) ==> {
                &&& array.wf()
                &&& array.number_of_registers() == registers
                &&& array.number_of_bits() == B::spec_number_of_bits()
                &&& array.is_packed() == packed
                &&& forall|i: int| 0 <= i < array@.len() ==> #[trigger] array@[i] == 0
            },
    {
        proof {
            B::lemma_number_of_bits();
        }
        Array::new(registers, B::number_of_bits(), packed)
    }

    /// Number of registers that the array was made for.
    pub fn len(&self) -> (n: usize)
        ensures
            n == self.number_of_registers(),
    {
        self.registers
    }

    /// Number of slots in the words, which is the number of registers and of
    /// the padding registers that follow them.
    pub fn capacity(&self) -> (n: usize)
        requires
            self.wf(),
        ensures
            n == self@.len(),
    {
        proof {
            lemma_registers_per_word(self.bits as nat);
        }
        if self.packed {
            let total: u128 = (self.words.len() as u128) * 64;
            let slots: u128 = total / (self.bits as u128);
            proof {
                let (w, b, r) = (
                    self.words@.len() as int,
                    self.bits as int,
                    self.registers as int,
                );
                assert(w * 64 <= r * b + 63);
                assert(slots <= r + 63) by (nonlinear_arith)
                    requires
                        slots == (w * 64) / b,
                        w * 64 <= r * b + 63,
                        1 <= b,
                        0 <= r,
                ;
            }
            slots as usize
        } else {
            let per_word: usize = 64 / (self.bits as usize);
            proof {
                let (w, r) = (self.words@.len() as int, self.registers as int);
                assert(w * per_word <= r + per_word - 1) by (nonlinear_arith)
                    requires
                        w == (r + per_word - 1) / (per_word as int),
                        1 <= per_word,
                        0 <= r,
                ;
            }
            self.words.len() * per_word
        }
    }

    /// Whether two arrays have the same number of registers, the same width
    /// and the same layout.
    pub open spec fn same_shape(&self, other: &Array) -> bool {
        &&& self.number_of_registers() == other.number_of_registers()
        &&& self.number_of_bits() == other.number_of_bits()
        &&& self.is_packed() == other.is_packed()
    }

    /// The word in which register `index` begins and the bit of that word at
    /// which it does.
    fn locate(&self, index: usize) -> (place: (usize, u64))
        requires
            self.wf(),
            index < self@.len(),
        ensures
            place.0 == position(index as nat, self.bits as nat, self.packed) / 64,
            place.1 == position(index as nat, self.bits as nat, self.packed) % 64,
            position(index as nat, self.bits as nat, self.packed) + self.bits
                <= self.words@.len() * 64,
            place.0 * 64 + place.1 + self.bits <= self.words@.len() * 64,
            place.1 < 64,
            !self.packed ==> place.1 + self.bits <= 64,
    {
        proof {
            lemma_registers_per_word(self.bits as nat);
            lemma_position_inside(index as nat, self.words@.len(), self.bits as nat, self.packed);
        }
        if self.packed {
            assert(index * self.bits <= 0xffff_ffff_ffff_ffff * 64) by (nonlinear_arith)
                requires
                    index <= 0xffff_ffff_ffff_ffff,
                    self.bits <= 64,
            ;
            let start: u128 = (index as u128) * (self.bits as u128);
            assert(start / 64 <= index) by (nonlinear_arith)
                requires
                    start == index * self.bits,
                    self.bits <= 64,
            ;
            ((start / 64) as usize, (start % 64) as u64)
        } else {
            let per_word: usize = 64 / (self.bits as usize);
            let slot: usize = index % per_word;
            assert(slot * self.bits <= 64) by (nonlinear_arith)
                requires
                    slot < per_word,
                    per_word * self.bits <= 64,
                    1 <= self.bits,
            ;
            (index / per_word, (slot as u64) * (self.bits as u64))
        }
    }

    /// The value of the register in slot `index`.
    pub fn get(&self, index: usize) -> (value: u64)
        requires
            self.wf(),
            index < self@.len(),
        ensures
            value == self@[index as int],
            value <= self.max_value(),
    {
        let (k, offset) = self.locate(index);
        let bits: u64 = self.bits as u64;
        proof {
            lemma_read_bound(
                self.words@,
                position(index as nat, self.bits as nat, self.packed),
                self.bits as nat,
            );
        }
        if offset + bits <= 64 {
            read_field(self.words[k], offset, bits)
        } else {
            let low: u64 = 64 - offset;
            let high: u64 = bits - low;
            assert(k + 1 < self.words.len());
            let lower = read_field(self.words[k], offset, low);
            let upper = read_field(self.words[k + 1], 0, high);
            lower | (upper << low)
        }
    }

    /// Stores `value` in slot `index` and leaves every other slot as it was.
    pub fn set(&mut self, index: usize, value: u64)
        requires
            old(self).wf(),
            index < old(self)@.len(),
            value <= old(self).max_value(),
        ensures
            final(self).wf(),
            final(self).same_shape(old(self)),
            final(self)@ == old(self)@.update(index as int, value),
    {
        let (k, offset) = self.locate(index);
        let bits: u64 = self.bits as u64;
        let ghost before = self.words@;
        let ghost start = position(index as nat, self.bits as nat, self.packed);
        if offset + bits <= 64 {
            let word = write_field(self.words[k], offset, bits, value);
            self.words.set(k, word);
        } else {
            let low: u64 = 64 - offset;
            let high: u64 = bits - low;
            assert(k + 1 < self.words.len());
            let low_mask_word = mask_of(low as u8);
            proof {
                lemma_split_join(value, bits, low);
            }
            let first = write_field(self.words[k], offset, low, value & low_mask_word);
            let second = write_field(self.words[k + 1], 0, high, value >> low);
            self.words.set(k, first);
            self.words.set(k + 1, second);
        }
        proof {
            assert(self.words@ =~= write_bits(before, start, self.bits as nat, value));
            lemma_write_keeps_canonical(
                before,
                index as nat,
                self.bits as nat,
                self.packed,
                value,
            );
            lemma_view_after_write(before, index as nat, self.bits as nat, self.packed, value);
            assert(self@ =~= old(self)@.update(index as int, value));
        }
    }

    /// Replaces the value `v` of slot `index` by `f(v)` and returns both, the
    /// old value first. Every other slot stays as it was.
    pub fn set_apply<F: Fn(u64) -> u64>(&mut self, index: usize, f: F) -> (change: (u64, u64))
        requires
            old(self).wf(),
            index < old(self)@.len(),
            f.requires((old(self)@[index as int],)),
            forall|r: u64|
                f.ensures((old(self)@[index as int],), r) ==> r <= old(self).max_value(),
        ensures
            final(self).wf(),
            final(self).same_shape(old(self)),
            change.0 == old(self)@[index as int],
            f.ensures((change.0,), change.1),
            final(self)@ == old(self)@.update(index as int, change.1),
    {
        let before = self.get(index);
        let after = f(before);
        self.set(index, after);
        (before, after)
    }
}

impl PartialEq for Array {
    /// Whether the two arrays have the same shape and the same words.
    fn eq(&self, other: &Self) -> (equal: bool) {
        if self.registers != other.registers || self.bits != other.bits || self.packed
            != other.packed || self.words.len() != other.words.len() {
            return false;
        }
        let mut index: usize = 0;
        while index < self.words.len()
            invariant
                self.words@.len() == other.words@.len(),
                index <= self.words@.len(),
                forall|k: int| 0 <= k < index ==> self.words@[k] == other.words@[k],
            decreases self.words@.len() - index,
        {
            if self.words[index] != other.words[index] {
                return false;
            }
            index += 1;
        }
        proof {
            assert(self.words@ =~= other.words@);
        }
        true
    }
}

impl PartialEqSpecImpl for Array {
    open spec fn obeys_eq_spec() -> bool {
        true
    }

    /// Two arrays are equal where they have the same shape and their words
    /// are the same, bit by bit.
    closed spec fn eq_spec(&self, other: &Self) -> bool {
        &&& self.registers == other.registers
        &&& self.bits == other.bits
        &&& self.packed == other.packed
        &&& self.words@ == other.words@
    }
}

impl Eq for Array {

}

impl Array {
    /// Arrays of one shape that hold the same value in every slot are equal,
    /// and equal arrays have one shape and hold the same values.
    pub proof fn lemma_equal(&self, other: &Array)
        requires
            self.wf(),
            other.wf(),
        ensures
            PartialEqSpec::eq_spec(self, other) <==> self.same_shape(other) && self@ == other@,
    {
        if self.same_shape(other) && self@ == other@ {
            assert forall|i: nat|
                i < slots_in(self.words@.len(), self.bits as nat, self.packed) implies read_bits(
                self.words@,
                #[trigger] position(i, self.bits as nat, self.packed),
                self.bits as nat,
            ) == read_bits(
                other.words@,
                position(i, self.bits as nat, self.packed),
                self.bits as nat,
            ) by {
                assert(self@[i as int] == other@[i as int]);
            }
            lemma_words_determined(self.words@, other.words@, self.bits as nat, self.packed);
        }
        if PartialEqSpec::eq_spec(self, other) {
            assert(self@ =~= other@);
        }
    }
}

impl Clone for Array {
    /// A copy with the same shape and the same value in every slot.
    fn clone(&self) -> (copy: Self)
        ensures
            copy.wf() == self.wf(),
            copy.same_shape(self),
            copy@ == self@,
            PartialEqSpec::eq_spec(&copy, self),
    {
        let words = self.words.clone();
        assert(words@ =~= self.words@);
        Array { words, registers: self.registers, bits: self.bits, packed: self.packed }
    }
}

/// The field of `width` bits of `word` that starts at bit `offset`.
fn read_field(word: u64, offset: u64, width: u64) -> (value: u64)
    requires
        offset < 64,
        1 <= width <= 64,
    ensures
        value == field(word, offset, width),
{
    (word >> offset) & mask_of(width as u8)
}

/// `word` with `value` stored in the field of `width` bits that starts at bit
/// `offset`.
fn write_field(word: u64, offset: u64, width: u64, value: u64) -> (written: u64)
    requires
        offset < 64,
        1 <= width <= 64,
        offset + width <= 64,
        value <= low_mask(width),
    ensures
        written == with_field(word, offset, width, value),
{
    let mask = mask_of(width as u8);
    assert((mask << offset) >> offset == mask && (value << offset) >> offset == value)
        by (bit_vector)
        requires
            offset < 64,
            offset + width <= 64,
            mask == low_mask(width),
            value <= mask,
    ;
    (word & !(mask << offset)) | (value << offset)
}

/// After a write to the place of register `index`, that register holds the
/// value written and every other register holds what it held.
pub proof fn lemma_view_after_write(
    words: Seq<u64>,
    index: nat,
    bits: nat,
    packed: bool,
    value: u64,
)
    requires
        1 <= bits <= 64,
        index < slots_in(words.len(), bits, packed),
        value <= low_mask(bits as u64),
    ensures
        write_bits(words, position(index, bits, packed), bits, value).len() == words.len(),
        forall|j: nat|
            j < slots_in(words.len(), bits, packed) ==> #[trigger] read_bits(
                write_bits(words, position(index, bits, packed), bits, value),
                position(j, bits, packed),
                bits,
            ) == if j == index {
                value
            } else {
                read_bits(words, position(j, bits, packed), bits)
            },
{
    let p = position(index, bits, packed);
    lemma_position_inside(index, words.len(), bits, packed);
    lemma_read_after_write(words, p, p, bits, value);
    assert forall|j: nat| j < slots_in(words.len(), bits, packed) implies #[trigger] read_bits(
        write_bits(words, p, bits, value),
        position(j, bits, packed),
        bits,
    ) == if j == index {
        value
    } else {
        read_bits(words, position(j, bits, packed), bits)
    } by {
        let q = position(j, bits, packed);
        lemma_position_inside(j, words.len(), bits, packed);
        if j < index {
            lemma_positions_apart(j, index, bits, packed);
        } else if index < j {
            lemma_positions_apart(index, j, bits, packed);
        }
        lemma_read_after_write(words, p, q, bits, value);
    }
}

/// Words that are all zero hold zero in every register.
pub proof fn lemma_zero_words_read_zero(words: Seq<u64>, p: nat, bits: nat)
    requires
        1 <= bits <= 64,
        p + bits <= words.len() * 64,
        forall|k: int| 0 <= k < words.len() ==> #[trigger] words[k] == 0,
    ensures
        read_bits(words, p, bits) == 0,
{
    let offset = (p % 64) as u64;
    let b = bits as u64;
    assert(forall|o: u64, w: u64| #![auto] o < 64 ==> field(0, o, w) == 0) by (bit_vector);
    assert(forall|s: u64| #![auto] s < 64 ==> (0u64 | (0u64 << s)) == 0) by (bit_vector);
}

} // verus!
