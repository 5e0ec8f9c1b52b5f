//! The HyperLogLog counter: one small register for each bucket of the hash
//! space, and the number of registers that were never written.
use crate::array::{mask_of, max_registers, Array};
use crate::bitfield::low_mask;
use crate::hashing::digest;
use std::hash::Hash;
use vstd::arithmetic::power2::{lemma2_to64, lemma_pow2_strictly_increases, pow2};
use vstd::bits::{
    lemma_u32_low_bits_mask_is_mod, lemma_u32_pow2_no_overflow, lemma_u32_shl_is_mul,
    lemma_u32_shr_is_div, low_bits_mask,
};
use vstd::prelude::*;
use vstd::std_specs::bits::{axiom_u32_leading_zeros, u32_leading_zeros};
use vstd::std_specs::cmp::{PartialEqSpec, PartialEqSpecImpl};

verus! {

/// Why a counter could not be made.
#[derive(Clone, Copy, Debug, PartialEq, Eq, Structural)]
pub enum HyperLogLogError {
    /// The precision exponent is not between 4 and 18.
    UnsupportedPrecision,
    /// The register width is not between 4 and 8 bits.
    UnsupportedBits,
    /// The registers handed over are not as many as the precision asks for.
    WrongNumberOfRegisters,
    /// One of the registers handed over does not fit the register width.
    RegisterTooLarge,
}

/// The smallest precision exponent.
pub const MIN_PRECISION: usize = 4;

/// The largest precision exponent.
pub const MAX_PRECISION: usize = 18;

/// The smallest register width, in bits.
pub const MIN_BITS: usize = 4;

/// The largest register width, in bits.
pub const MAX_BITS: usize = 8;

/// Number of bits of a digest that a counter looks at.
pub const HASH_BITS: usize = 32;

/// What is wrong with a pair of precision and register width, if anything.
pub open spec fn parameter_error(precision: nat, bits: nat) -> Option<HyperLogLogError> {
    if !(MIN_PRECISION <= precision <= MAX_PRECISION) {
        Some(HyperLogLogError::UnsupportedPrecision)
    } else if !(MIN_BITS <= bits <= MAX_BITS) {
        Some(HyperLogLogError::UnsupportedBits)
    } else {
        None
    }
}

/// Number of registers of a counter: two to the power of the precision.
pub open spec fn number_of_registers(precision: nat) -> nat {
    pow2(precision)
}

/// The largest value that a register of `bits` bits holds.
pub open spec fn max_register(bits: nat) -> nat {
    (pow2(bits) - 1) as nat
}

/// The low 32 bits of a digest, as a number. They are all that a counter
/// looks at.
pub open spec fn hash_low(hash: u64) -> nat {
    (hash as nat) % 0x1_0000_0000
}

/// The register that a digest falls into: the number that the top `precision`
/// of its low 32 bits spell.
pub open spec fn hash_index(hash: u64, precision: nat) -> nat {
    hash_low(hash) / pow2((HASH_BITS - precision) as nat)
}

/// What is left of the low 32 bits of a digest below the index bits, as a
/// number.
pub open spec fn hash_suffix(hash: u64, precision: nat) -> nat {
    hash_low(hash) % pow2((HASH_BITS - precision) as nat)
}

/// Number of leading zeros of `value` when it is written with `width` bits.
pub open spec fn leading_zeros(value: nat, width: nat) -> nat
    decreases width,
{
    if width == 0 || value >= pow2((width - 1) as nat) {
        0
    } else {
        1 + leading_zeros(value, (width - 1) as nat)
    }
}

/// The rank of a digest: one more than the number of leading zeros of what is
/// left of it below the index bits.
pub open spec fn hash_rank(hash: u64, precision: nat) -> nat {
    1 + leading_zeros(hash_suffix(hash, precision), (HASH_BITS - precision) as nat)
}

/// What a digest writes to its register: its rank, cut down to the largest
/// value of a register where the rank exceeds it.
pub open spec fn stored_rank(hash: u64, precision: nat, bits: nat) -> u32 {
    if hash_rank(hash, precision) > max_register(bits) {
        max_register(bits) as u32
    } else {
        hash_rank(hash, precision) as u32
    }
}

/// The larger of two register values.
pub open spec fn larger(a: u32, b: u32) -> u32 {
    if a >= b {
        a
    } else {
        b
    }
}

/// The smaller of two register values.
pub open spec fn smaller(a: u32, b: u32) -> u32 {
    if a <= b {
        a
    } else {
        b
    }
}

/// The registers after the insertion of an element with digest `hash`: the
/// register that the digest falls into holds the larger of what it held and
/// of what the digest writes, and the others are kept.
pub open spec fn inserted(registers: Seq<u32>, hash: u64, precision: nat, bits: nat) -> Seq<u32> {
    let index = hash_index(hash, precision) as int;
    registers.update(index, larger(registers[index], stored_rank(hash, precision, bits)))
}

/// Register by register, the larger value of two counters.
pub open spec fn union_of(a: Seq<u32>, b: Seq<u32>) -> Seq<u32> {
    Seq::new(a.len(), |i: int| larger(a[i], b[i]))
}

/// Register by register, the smaller value of two counters.
pub open spec fn intersection_of(a: Seq<u32>, b: Seq<u32>) -> Seq<u32> {
    Seq::new(a.len(), |i: int| smaller(a[i], b[i]))
}

/// The registers of a counter into which nothing was inserted.
pub open spec fn empty_registers(precision: nat) -> Seq<u32> {
    Seq::new(number_of_registers(precision), |i: int| 0u32)
}

/// What is wrong with registers handed over to make a counter of, if
/// anything: the parameters come first, then the number of registers, then
/// their values.
pub open spec fn registers_error(registers: Seq<u32>, precision: nat, bits: nat) -> Option<
    HyperLogLogError,
> {
    if parameter_error(precision, bits) is Some {
        parameter_error(precision, bits)
    } else if registers.len() != number_of_registers(precision) {
        Some(HyperLogLogError::WrongNumberOfRegisters)
    } else if exists|i: int|
        0 <= i < registers.len() && #[trigger] registers[i] > max_register(bits) {
        Some(HyperLogLogError::RegisterTooLarge)
    } else {
        None
    }
}

/// Number of entries of `registers` that are zero.
pub open spec fn count_zeros(registers: Seq<u32>) -> nat
    decreases registers.len(),
{
    if registers.len() == 0 {
        0
    } else {
        count_zeros(registers.drop_last()) + if registers.last() == 0 {
            1nat
        } else {
            0nat
        }
    }
}

/// The register values of an array, padding included, as 32-bit numbers.
pub open spec fn narrowed(slots: Seq<u64>) -> Seq<u32> {
    Seq::new(slots.len(), |i: int| slots[i] as u32)
}

/// There are no more zeros in a sequence than entries.
pub proof fn lemma_count_zeros_bound(registers: Seq<u32>)
    ensures
        count_zeros(registers) <= registers.len(),
    decreases registers.len(),
{
    if registers.len() > 0 {
        lemma_count_zeros_bound(registers.drop_last());
    }
}

/// One more entry adds one zero where that entry is zero, and none otherwise.
pub proof fn lemma_count_zeros_step(registers: Seq<u32>, n: int)
    requires
        0 <= n < registers.len(),
    ensures
        count_zeros(registers.take(n + 1)) == count_zeros(registers.take(n)) + if registers[n]
            == 0 {
            1nat
        } else {
            0nat
        },
{
    assert(registers.take(n + 1).drop_last() =~= registers.take(n));
}

/// A sequence of zeros holds as many zeros as it has entries.
pub proof fn lemma_count_zeros_all(registers: Seq<u32>)
    requires
        forall|i: int| 0 <= i < registers.len() ==> #[trigger] registers[i] == 0,
    ensures
        count_zeros(registers) == registers.len(),
    decreases registers.len(),
{
    if registers.len() > 0 {
        lemma_count_zeros_all(registers.drop_last());
    }
}

/// No entry of a sequence is zero exactly where its count of zeros is zero,
/// and all are exactly where the count is the length.
pub proof fn lemma_count_zeros_extremes(registers: Seq<u32>)
    ensures
        count_zeros(registers) == 0 <==> forall|i: int|
            0 <= i < registers.len() ==> #[trigger] registers[i] != 0,
        count_zeros(registers) == registers.len() <==> forall|i: int|
            0 <= i < registers.len() ==> #[trigger] registers[i] == 0,
    decreases registers.len(),
{
    if registers.len() > 0 {
        let front = registers.drop_last();
        lemma_count_zeros_extremes(front);
        lemma_count_zeros_bound(front);
        assert forall|i: int| 0 <= i < front.len() implies front[i] == registers[i] by {}
        if forall|i: int| 0 <= i < registers.len() ==> #[trigger] registers[i] != 0 {
            assert forall|i: int| 0 <= i < front.len() implies #[trigger] front[i] != 0 by {
                assert(registers[i] != 0);
            }
        }
        if forall|i: int| 0 <= i < registers.len() ==> #[trigger] registers[i] == 0 {
            assert forall|i: int| 0 <= i < front.len() implies #[trigger] front[i] == 0 by {
                assert(registers[i] == 0);
            }
        }
        if count_zeros(registers) == 0 {
            assert(registers.last() != 0);
            assert forall|i: int| 0 <= i < registers.len() implies #[trigger] registers[i]
                != 0 by {
                if i < front.len() {
                    assert(front[i] != 0);
                }
            }
        }
        if count_zeros(registers) == registers.len() {
            assert(registers.last() == 0);
            assert forall|i: int| 0 <= i < registers.len() implies #[trigger] registers[i]
                == 0 by {
                if i < front.len() {
                    assert(front[i] == 0);
                }
            }
        }
    }
}

/// Writing one entry changes the number of zeros by what that entry was and
/// what it becomes.
pub proof fn lemma_count_zeros_update(registers: Seq<u32>, index: int, value: u32)
    requires
        0 <= index < registers.len(),
    ensures
        count_zeros(registers.update(index, value)) + if registers[index] == 0 {
            1nat
        } else {
            0nat
        } == count_zeros(registers) + if value == 0 {
            1nat
        } else {
            0nat
        },
    decreases registers.len(),
{
    let after = registers.update(index, value);
    if index == registers.len() - 1 {
        assert(after.drop_last() =~= registers.drop_last());
    } else {
        lemma_count_zeros_update(registers.drop_last(), index, value);
        assert(after.drop_last() =~= registers.drop_last().update(index, value));
    }
}

/// Zeros behind the first `n` entries add their number to the count.
pub proof fn lemma_count_zeros_tail(registers: Seq<u32>, n: int)
    requires
        0 <= n <= registers.len(),
        forall|i: int| n <= i < registers.len() ==> #[trigger] registers[i] == 0,
    ensures
        count_zeros(registers) == count_zeros(registers.take(n)) + registers.len() - n,
    decreases registers.len() - n,
{
    if n == registers.len() {
        assert(registers.take(n) =~= registers);
    } else {
        lemma_count_zeros_tail(registers, n + 1);
        lemma_count_zeros_step(registers, n);
    }
}

/// Shifting one to the left by `exponent` gives two to the power of
/// `exponent`.
pub proof fn lemma_shift_is_power(exponent: nat)
    requires
        exponent < 32,
    ensures
        (1u32 << (exponent as u32)) == pow2(exponent),
        0 < pow2(exponent) <= 0x8000_0000,
{
    lemma2_to64();
    lemma_u32_pow2_no_overflow(exponent);
    lemma_u32_shl_is_mul(1u32, exponent as u32);
    if exponent < 31 {
        lemma_pow2_strictly_increases(exponent, 31);
    }
}

/// For the exponents that a counter takes, shifting one to the left by the
/// exponent gives two to its power, which is between 16 and 262144.
pub proof fn lemma_power_of_two(precision: nat)
    requires
        precision <= MAX_PRECISION,
    ensures
        (1u32 << (precision as u32)) == pow2(precision),
        pow2(precision) <= 262144,
        MIN_PRECISION <= precision ==> 16 <= pow2(precision),
{
    lemma2_to64();
    lemma_shift_is_power(precision);
    if precision < 18 {
        lemma_pow2_strictly_increases(precision, 18);
    }
    if 4 < precision {
        lemma_pow2_strictly_increases(4, precision);
    }
}

/// The number of leading zeros of a value of `width` bits, by its size: a
/// value of `zeros` leading zeros is zero where all its bits are leading
/// zeros, and else lies between the two powers of two that its first one
/// allows.
pub proof fn lemma_leading_zeros(value: nat, width: nat, zeros: nat)
    requires
        zeros <= width,
        zeros == width ==> value == 0,
        zeros < width ==> pow2((width - zeros - 1) as nat) <= value < pow2(
            (width - zeros) as nat,
        ),
    ensures
        leading_zeros(value, width) == zeros,
    decreases width,
{
    if zeros > 0 {
        vstd::arithmetic::power2::lemma_pow2_pos((width - 1) as nat);
        if zeros < width && width - zeros < width - 1 {
            lemma_pow2_strictly_increases((width - zeros) as nat, (width - 1) as nat);
        }
        lemma_leading_zeros(value, (width - 1) as nat, (zeros - 1) as nat);
    }
}

/// The leading zeros of a value are no more than its bits.
pub proof fn lemma_leading_zeros_bound(value: nat, width: nat)
    ensures
        leading_zeros(value, width) <= width,
    decreases width,
{
    if width > 0 {
        lemma_leading_zeros_bound(value, (width - 1) as nat);
    }
}

/// A digest falls into one of the registers, and its rank is at least one and
/// at most one more than the number of bits below the index bits.
pub proof fn lemma_hash_parts(hash: u64, precision: nat)
    requires
        MIN_PRECISION <= precision <= MAX_PRECISION,
    ensures
        hash_index(hash, precision) < number_of_registers(precision),
        1 <= hash_rank(hash, precision) <= HASH_BITS + 1 - precision,
{
    let width = (HASH_BITS - precision) as nat;
    lemma_leading_zeros_bound(hash_suffix(hash, precision), width);
    lemma_shift_is_power(width);
    lemma_power_of_two(precision);
    vstd::arithmetic::power2::lemma_pow2_adds(width, precision);
    lemma2_to64();
    let (low, unit, count) = (hash_low(hash) as int, pow2(width) as int, pow2(precision) as int);
    assert(low / unit < count) by (nonlinear_arith)
        requires
            0 <= low < unit * count,
            0 < unit,
    ;
}

/// How the parts of a digest are read off its bits: the index is the low 32
/// bits shifted down to their top `precision` bits, and the rank is one more
/// than the leading zeros of the word that holds the bits below them at its
/// top, followed by a one.
proof fn lemma_hash_bits(hash: u64, precision: nat)
    requires
        MIN_PRECISION <= precision <= MAX_PRECISION,
    ensures
        hash & 0xffff_ffff <= 0xffff_ffff,
        ((hash & 0xffff_ffff) as u32) >> ((32 - precision) as u32) == hash_index(hash, precision),
        1 + u32_leading_zeros(
            (((hash & 0xffff_ffff) as u32) << (precision as u32)) | (1u32 << ((precision
                - 1) as u32)),
        ) == hash_rank(hash, precision),
{
    let p = precision as u32;
    let w = (32 - p) as u32;
    let masked = hash & 0xffff_ffff;
    assert(masked == hash % 0x1_0000_0000 && masked <= 0xffff_ffff) by (bit_vector)
        requires
            masked == hash & 0xffff_ffff,
    ;
    let low = masked as u32;
    lemma_shift_is_power(w as nat);
    lemma_u32_shr_is_div(low, w);
    let mask = !(0xffff_ffffu32 << w);
    assert(mask == (1u32 << w) - 1) by (bit_vector)
        requires
            mask == !(0xffff_ffffu32 << w),
            14 <= w <= 28,
    ;
    assert(mask == low_bits_mask(w as nat));
    lemma_u32_low_bits_mask_is_mod(low, w as nat);
    let suffix = low & mask;
    assert(suffix == hash_suffix(hash, precision));
    let word = (low << p) | (1u32 << ((p - 1) as u32));
    axiom_u32_leading_zeros(word);
    let zeros = u32_leading_zeros(word);
    assert(word != 0) by (bit_vector)
        requires
            word == (low << p) | (1u32 << ((p - 1) as u32)),
            4 <= p <= 18,
    ;
    let top = (31 - zeros) as u32;
    let above = (32 - zeros) as u32;
    assert((word >> top) & 1u32 != 0u32);
    assert(word >> above == 0);
    let first = if zeros < w {
        (w - zeros - 1) as u32
    } else {
        0u32
    };
    let next = if zeros < w {
        (w - zeros) as u32
    } else {
        0u32
    };
    assert(zeros <= w && (zeros == w ==> suffix == 0) && (zeros < w ==> (1u32 << first) <= suffix
        && suffix < (1u32 << next))) by (bit_vector)
        requires
            4 <= p <= 18,
            w == 32 - p,
            mask == !(0xffff_ffffu32 << w),
            suffix == low & mask,
            word == (low << p) | (1u32 << ((p - 1) as u32)),
            zeros < 32,
            top == 31 - zeros,
            (word >> top) & 1u32 != 0u32,
            zeros >= 1 ==> above == 32 - zeros && word >> above == 0,
            zeros < w ==> first == w - zeros - 1 && next == w - zeros,
    ;
    if zeros < w {
        lemma_shift_is_power(first as nat);
        lemma_shift_is_power(next as nat);
    }
    lemma_leading_zeros(suffix as nat, w as nat, zeros as nat);
}

/// The largest value of a register of 4 to 8 bits is between 15 and 255, and
/// it is the word whose low bits, as many as the register has, are set.
pub proof fn lemma_max_register(bits: nat)
    requires
        MIN_BITS <= bits <= MAX_BITS,
    ensures
        15 <= max_register(bits) <= 255,
        max_register(bits) == low_mask(bits as u64),
{
    let b = bits as u64;
    lemma2_to64();
    assert(low_mask(b) == if b == 4 {
        15u64
    } else if b == 5 {
        31u64
    } else if b == 6 {
        63u64
    } else if b == 7 {
        127u64
    } else {
        255u64
    }) by (bit_vector)
        requires
            4 <= b <= 8,
    ;
}

/// A HyperLogLog counter of `2^PRECISION` registers of `BITS` bits each.
#[derive(Debug)]
pub struct HyperLogLog<const PRECISION: usize, const BITS: usize> {
    registers: Array,
    number_of_zero_registers: usize,
}

impl<const PRECISION: usize, const BITS: usize> View for HyperLogLog<PRECISION, BITS> {
    type V = Seq<u32>;

    /// The registers, in the order of their indices.
    closed spec fn view(&self) -> Seq<u32> {
        narrowed(self.registers@).take(number_of_registers(PRECISION as nat) as int)
    }
}

impl<const PRECISION: usize, const BITS: usize> HyperLogLog<PRECISION, BITS> {
    /// The cached number of registers that are zero.
    pub closed spec fn zero_registers(&self) -> nat {
        self.number_of_zero_registers as nat
    }

    /// The counter is made for a supported precision and width, its storage is
    /// a padded array of that shape whose padding registers are zero, and the
    /// cached number of zero registers is the number of registers that are zero.
    pub closed spec fn wf(&self) -> bool {
        &&& parameter_error(PRECISION as nat, BITS as nat) is None
        &&& self.registers.wf()
        &&& self.registers.number_of_registers() == number_of_registers(PRECISION as nat)
        &&& self.registers.number_of_bits() == BITS
        &&& !self.registers.is_packed()
        &&& forall|i: int|
            number_of_registers(PRECISION as nat) <= i < self.registers@.len()
                ==> #[trigger] self.registers@[i] == 0
        &&& self.number_of_zero_registers == count_zeros(self@)
    }

    /// What validity gives to a caller: supported parameters, one register for
    /// each bucket, no register above the largest value, and a cached number of
    /// zero registers that is exact.
    pub proof fn lemma_wf(&self)
        requires
            self.wf(),
        ensures
            parameter_error(PRECISION as nat, BITS as nat) is None,
            self@.len() == number_of_registers(PRECISION as nat),
            forall|i: int|
                0 <= i < self@.len() ==> #[trigger] self@[i] <= max_register(BITS as nat),
            self.zero_registers() == count_zeros(self@),
            self.zero_registers() <= self@.len(),
    {
        self.registers.lemma_wf();
        lemma_max_register(BITS as nat);
        lemma_count_zeros_bound(self@);
        assert forall|i: int| 0 <= i < self@.len() implies #[trigger] self@[i] <= max_register(
            BITS as nat,
        ) by {
            assert(self.registers@[i] <= self.registers.max_value());
        }
    }

    /// Number of registers, as a machine integer.
    fn register_count() -> (n: usize)
        requires
            PRECISION <= MAX_PRECISION,
        ensures
            n == number_of_registers(PRECISION as nat),
            n <= 262144,
    {
        proof {
            lemma_power_of_two(PRECISION as nat);
        }
        let n: u32 = 1u32 << (PRECISION as u32);
        n as usize
    }

    /// Creates an empty counter. The precision must be between 4 and 18 and the
    /// register width between 4 and 8 bits.
    pub fn new() -> (made: Result<Self, HyperLogLogError>)
        ensures
            match made {
                Ok(counter) => {
                    &&& parameter_error(PRECISION as nat, BITS as nat) is None
                    &&& counter.wf()
                    &&& counter@ == empty_registers(PRECISION as nat)
                    &&& counter.zero_registers() == number_of_registers(PRECISION as nat)
                },
                Err(e) => parameter_error(PRECISION as nat, BITS as nat) == Some(e),
            },
    {
        if PRECISION < MIN_PRECISION || PRECISION > MAX_PRECISION {
            return Err(HyperLogLogError::UnsupportedPrecision);
        }
        if BITS < MIN_BITS || BITS > MAX_BITS {
            return Err(HyperLogLogError::UnsupportedBits);
        }
        let n = Self::register_count();
        match Array::new(n, BITS as u8, false) {
            Ok(registers) => {
                let counter = HyperLogLog { registers, number_of_zero_registers: n };
                proof {
                    registers.lemma_wf();
                    assert(counter@ =~= empty_registers(PRECISION as nat));
                    lemma_count_zeros_all(counter@);
                }
                Ok(counter)
            },
            Err(_) => {
                proof {
                    assert(n <= max_registers());
                }
                unreached()
            },
        }
    }

    /// Number of registers.
    pub fn len(&self) -> (n: usize)
        requires
            self.wf(),
        ensures
            n == number_of_registers(PRECISION as nat),
            n == self@.len(),
    {
        proof {
            self.lemma_wf();
        }
        Self::register_count()
    }

    /// The precision exponent, which is the number of bits of a digest that
    /// pick the register.
    pub fn get_number_of_bits(&self) -> (bits: usize)
        ensures
            bits == PRECISION,
    {
        PRECISION
    }

    /// Number of registers that are zero.
    pub fn get_number_of_zero_registers(&self) -> (zeros: usize)
        requires
            self.wf(),
        ensures
            zeros == count_zeros(self@),
            zeros == self.zero_registers(),
    {
        self.number_of_zero_registers
    }

    /// Number of registers that are not zero.
    pub fn get_number_of_non_zero_registers(&self) -> (written: usize)
        requires
            self.wf(),
        ensures
            written == self@.len() - count_zeros(self@),
    {
        proof {
            self.lemma_wf();
        }
        Self::register_count() - self.number_of_zero_registers
    }

    /// Whether no element was inserted: every register is zero.
    pub fn is_empty(&self) -> (empty: bool)
        requires
            self.wf(),
        ensures
            empty <==> forall|i: int| 0 <= i < self@.len() ==> #[trigger] self@[i] == 0,
    {
        proof {
            self.lemma_wf();
            lemma_count_zeros_extremes(self@);
        }
        self.number_of_zero_registers == Self::register_count()
    }

    /// Whether every register was written: none is zero.
    pub fn is_full(&self) -> (full: bool)
        requires
            self.wf(),
        ensures
            full <==> forall|i: int| 0 <= i < self@.len() ==> #[trigger] self@[i] != 0,
    {
        proof {
            self.lemma_wf();
            lemma_count_zeros_extremes(self@);
        }
        self.number_of_zero_registers == 0
    }

    /// The value of register `index`.
    pub fn get_register(&self, index: usize) -> (value: u32)
        requires
            self.wf(),
            index < self@.len(),
        ensures
            value == self@[index as int],
    {
        proof {
            self.lemma_wf();
            self.registers.lemma_wf();
            lemma_max_register(BITS as nat);
        }
        let value = self.registers.get(index);
        value as u32
    }

    /// The registers, in the order of their indices.
    pub fn get_registers(&self) -> (registers: Vec<u32>)
        requires
            self.wf(),
        ensures
            registers@ == self@,
    {
        let n = self.len();
        let mut registers: Vec<u32> = Vec::with_capacity(n);
        let mut index: usize = 0;
        while index < n
            invariant
                self.wf(),
                n == self@.len(),
                index <= n,
                registers@ == self@.take(index as int),
            decreases n - index,
        {
            let value = self.get_register(index);
            registers.push(value);
            proof {
                assert(registers@ =~= self@.take(index + 1));
            }
            index += 1;
        }
        proof {
            assert(self@.take(n as int) =~= self@);
        }
        registers
    }

    /// The register that a digest falls into and what the digest writes to it.
    fn split_hash(hash: u64) -> (parts: (usize, u32))
        requires
            parameter_error(PRECISION as nat, BITS as nat) is None,
        ensures
            parts.0 == hash_index(hash, PRECISION as nat),
            parts.0 < number_of_registers(PRECISION as nat),
            parts.1 == stored_rank(hash, PRECISION as nat, BITS as nat),
            1 <= parts.1 <= max_register(BITS as nat),
    {
        proof {
            lemma_hash_parts(hash, PRECISION as nat);
            lemma_hash_bits(hash, PRECISION as nat);
            lemma_max_register(BITS as nat);
        }
        let precision: u32 = PRECISION as u32;
        let low: u32 = (hash & 0xffff_ffff) as u32;
        let index: u32 = low >> (32 - precision);
        let word: u32 = (low << precision) | (1u32 << (precision - 1));
        let rank: u32 = 1 + word.leading_zeros();
        let max: u32 = mask_of(BITS as u8) as u32;
        let stored: u32 = if rank > max {
            max
        } else {
            rank
        };
        (index as usize, stored)
    }

    /// Inserts an element by its digest: the register that the digest falls
    /// into rises to what the digest writes, unless it holds as much already.
    /// Returns whether a register changed.
    pub fn insert_hash(&mut self, hash: u64) -> (changed: bool)
        requires
            old(self).wf(),
        ensures
            final(self).wf(),
            final(self)@ == inserted(old(self)@, hash, PRECISION as nat, BITS as nat),
            changed <==> final(self)@ != old(self)@,
            changed <==> old(self)@[hash_index(hash, PRECISION as nat) as int] < stored_rank(
                hash,
                PRECISION as nat,
                BITS as nat,
            ),
    {
        proof {
            self.lemma_wf();
            self.registers.lemma_wf();
            lemma_max_register(BITS as nat);
        }
        let (index, stored) = Self::split_hash(hash);
        let ghost before = self@;
        let written: u64 = stored as u64;
        let raise = |held: u64| -> (kept: u64)
            ensures
                kept == if written > held {
                    written
                } else {
                    held
                },
            {
                if written > held {
                    written
                } else {
                    held
                }
            };
        let (held, kept) = self.registers.set_apply(index, raise);
        proof {
            self.registers.lemma_wf();
            lemma_count_zeros_update(before, index as int, kept as u32);
            assert(self@ =~= before.update(index as int, kept as u32));
            if held == kept {
                assert(self@ =~= before);
            } else {
                assert(self@[index as int] != before[index as int]);
            }
        }
        if held == 0 {
            self.number_of_zero_registers = self.number_of_zero_registers - 1;
        }
        held != kept
    }

    /// Adds an element to the counter. The element is hashed, and its digest
    /// inserted.
    pub fn insert<T: Hash>(&mut self, rhs: T)
        requires
            old(self).wf(),
        ensures
            final(self).wf(),
            exists|hash: u64|
                final(self)@ == #[trigger] inserted(
                    old(self)@,
                    hash,
                    PRECISION as nat,
                    BITS as nat,
                ),
    {
        let hash = digest(&rhs);
        self.insert_hash(hash);
    }

    /// Whether an element with this digest may have been inserted: the
    /// register that the digest falls into holds at least what the digest
    /// writes. It does after the element was inserted, and it may for an
    /// element that never was.
    pub open spec fn spec_may_contain(&self, hash: u64) -> bool {
        self@[hash_index(hash, PRECISION as nat) as int] >= stored_rank(
            hash,
            PRECISION as nat,
            BITS as nat,
        )
    }

    /// Whether an element with this digest may have been inserted.
    pub fn may_contain_hash(&self, hash: u64) -> (found: bool)
        requires
            self.wf(),
        ensures
            found == self.spec_may_contain(hash),
    {
        proof {
            self.lemma_wf();
        }
        let (index, stored) = Self::split_hash(hash);
        self.get_register(index) >= stored
    }

    /// Whether the element may have been inserted. It may where its digest may.
    pub fn may_contain<T: Hash>(&self, element: &T) -> (found: bool)
        requires
            self.wf(),
        ensures
            exists|hash: u64| found == #[trigger] self.spec_may_contain(hash),
    {
        let hash = digest(element);
        self.may_contain_hash(hash)
    }

    /// Makes a counter of the given registers. There must be as many as the
    /// precision asks for, and none may exceed the register width; nothing is
    /// cut to fit.
    pub fn from_registers(registers: &[u32]) -> (made: Result<Self, HyperLogLogError>)
        ensures
            match made {
                Ok(counter) => {
                    &&& registers_error(registers@, PRECISION as nat, BITS as nat) is None
                    &&& counter.wf()
                    &&& counter@ == registers@
                },
                Err(e) => registers_error(registers@, PRECISION as nat, BITS as nat) == Some(e),
            },
    {
        let mut counter = match Self::new() {
            Ok(counter) => counter,
            Err(e) => {
                return Err(e);
            },
        };
        proof {
            counter.lemma_wf();
            counter.registers.lemma_wf();
            lemma_max_register(BITS as nat);
        }
        let n = Self::register_count();
        if registers.len() != n {
            return Err(HyperLogLogError::WrongNumberOfRegisters);
        }
        let max: u32 = mask_of(BITS as u8) as u32;
        let ghost slots = counter.registers@;
        proof {
            assert forall|j: int| 0 <= j < slots.len() implies #[trigger] slots[j] == 0 by {
                if j < n {
                    assert(counter@[j] == 0);
                    assert(slots[j] <= counter.registers.max_value());
                }
            }
        }
        let mut zeros: usize = 0;
        let mut index: usize = 0;
        while index < n
            invariant
                parameter_error(PRECISION as nat, BITS as nat) is None,
                n == number_of_registers(PRECISION as nat),
                n == registers@.len(),
                max == max_register(BITS as nat),
                max == counter.registers.max_value(),
                index <= n,
                counter.registers.wf(),
                counter.registers.number_of_registers() == n,
                counter.registers.number_of_bits() == BITS,
                !counter.registers.is_packed(),
                counter.registers@.len() == slots.len(),
                n <= slots.len(),
                forall|j: int| 0 <= j < slots.len() ==> #[trigger] slots[j] == 0,
                forall|j: int| 0 <= j < index ==> #[trigger] counter.registers@[j] == registers@[j],
                forall|j: int|
                    index <= j < slots.len() ==> #[trigger] counter.registers@[j] == 0,
                forall|j: int| 0 <= j < index ==> #[trigger] registers@[j] <= max,
                zeros == count_zeros(registers@.take(index as int)),
                zeros <= index,
            decreases n - index,
        {
            let value = registers[index];
            if value > max {
                return Err(HyperLogLogError::RegisterTooLarge);
            }
            counter.registers.set(index, value as u64);
            proof {
                lemma_count_zeros_step(registers@, index as int);
            }
            if value == 0 {
                zeros += 1;
            }
            index += 1;
        }
        counter.number_of_zero_registers = zeros;
        proof {
            assert(registers@.take(n as int) =~= registers@);
            assert(counter@ =~= registers@);
        }
        Ok(counter)
    }

    /// A cursor over the registers, which starts at the first.
    pub fn iter(&self) -> (cursor: RegisterIter<'_, PRECISION, BITS>)
        requires
            self.wf(),
        ensures
            cursor.wf(),
            cursor.remaining() == self@,
    {
        proof {
            self.lemma_wf();
            assert(self@.skip(0) =~= self@);
        }
        RegisterIter { counter: self, index: 0 }
    }

    /// Turns the counter into the union of itself and `rhs`: every register
    /// becomes the larger of the two registers at its index.
    pub fn bitor_assign(&mut self, rhs: &Self)
        requires
            old(self).wf(),
            rhs.wf(),
        ensures
            final(self).wf(),
            final(self)@ == union_of(old(self)@, rhs@),
    {
        proof {
            self.lemma_wf();
            rhs.lemma_wf();
            self.registers.lemma_wf();
            rhs.registers.lemma_wf();
            lemma_max_register(BITS as nat);
        }
        let n = Self::register_count();
        let ghost before = self.registers@;
        let ghost target = union_of(self@, rhs@);
        let mut zeros: usize = 0;
        let mut index: usize = 0;
        while index < n
            invariant
                rhs.wf(),
                n == number_of_registers(PRECISION as nat),
                n == rhs@.len(),
                n == target.len(),
                n <= before.len(),
                index <= n,
                self.registers.wf(),
                self.registers.same_shape(&rhs.registers),
                self.registers@.len() == before.len(),
                rhs.registers@.len() == before.len(),
                self.registers.max_value() == rhs.registers.max_value(),
                forall|j: int|
                    0 <= j < before.len() ==> #[trigger] rhs.registers@[j]
                        <= rhs.registers.max_value(),
                forall|j: int|
                    0 <= j < before.len() ==> #[trigger] before[j] <= rhs.registers.max_value(),
                rhs.registers.max_value() <= 255,
                forall|j: int|
                    0 <= j < n ==> #[trigger] target[j] == larger(
                        before[j] as u32,
                        rhs.registers@[j] as u32,
                    ),
                forall|j: int| 0 <= j < index ==> #[trigger] self.registers@[j] == target[j],
                forall|j: int|
                    index <= j < before.len() ==> #[trigger] self.registers@[j] == before[j],
                zeros == count_zeros(target.take(index as int)),
                zeros <= index,
            decreases n - index,
        {
            let left = self.registers.get(index);
            let right = rhs.registers.get(index);
            let merged = if left >= right {
                left
            } else {
                right
            };
            self.registers.set(index, merged);
            proof {
                lemma_count_zeros_step(target, index as int);
            }
            if merged == 0 {
                zeros += 1;
            }
            index += 1;
        }
        self.number_of_zero_registers = zeros;
        proof {
            assert(target.take(n as int) =~= target);
            assert(self@ =~= target);
        }
    }

    /// The union of two counters.
    pub fn bitor(self, rhs: &Self) -> (merged: Self)
        requires
            self.wf(),
            rhs.wf(),
        ensures
            merged.wf(),
            merged@ == union_of(self@, rhs@),
    {
        let mut merged = self;
        merged.bitor_assign(rhs);
        merged
    }

    /// Turns the counter into the intersection of itself and `rhs`: every
    /// register becomes the smaller of the two registers at its index.
    ///
    /// The pass goes over every slot of the storage, so it also counts the
    /// padding registers behind the last register as zeros; their number is
    /// taken off the count at the end.
    pub fn bitand_assign(&mut self, rhs: &Self)
        requires
            old(self).wf(),
            rhs.wf(),
        ensures
            final(self).wf(),
            final(self)@ == intersection_of(old(self)@, rhs@),
    {
        proof {
            self.lemma_wf();
            rhs.lemma_wf();
            self.registers.lemma_wf();
            rhs.registers.lemma_wf();
            lemma_max_register(BITS as nat);
        }
        let n = Self::register_count();
        let slots = self.registers.capacity();
        let ghost before = self.registers@;
        let ghost target = intersection_of(narrowed(before), narrowed(rhs.registers@));
        let mut zeros: usize = 0;
        let mut index: usize = 0;
        while index < slots
            invariant
                rhs.wf(),
                n == number_of_registers(PRECISION as nat),
                n <= slots,
                slots == before.len(),
                slots == target.len(),
                index <= slots,
                self.registers.wf(),
                self.registers.same_shape(&rhs.registers),
                self.registers@.len() == slots,
                rhs.registers@.len() == slots,
                self.registers.max_value() == rhs.registers.max_value(),
                forall|j: int|
                    0 <= j < slots ==> #[trigger] rhs.registers@[j] <= rhs.registers.max_value(),
                forall|j: int| 0 <= j < slots ==> #[trigger] before[j] <= rhs.registers.max_value(),
                rhs.registers.max_value() <= 255,
                forall|j: int|
                    0 <= j < slots ==> #[trigger] target[j] == smaller(
                        before[j] as u32,
                        rhs.registers@[j] as u32,
                    ),
                forall|j: int| 0 <= j < index ==> #[trigger] self.registers@[j] == target[j],
                forall|j: int| index <= j < slots ==> #[trigger] self.registers@[j] == before[j],
                zeros == count_zeros(target.take(index as int)),
                zeros <= index,
            decreases slots - index,
        {
            let left = self.registers.get(index);
            let right = rhs.registers.get(index);
            let merged = if left <= right {
                left
            } else {
                right
            };
            self.registers.set(index, merged);
            proof {
                lemma_count_zeros_step(target, index as int);
            }
            if merged == 0 {
                zeros += 1;
            }
            index += 1;
        }
        proof {
            assert(target.take(slots as int) =~= target);
            assert forall|j: int| n <= j < target.len() implies #[trigger] target[j] == 0 by {
                assert(before[j] == 0);
            }
            lemma_count_zeros_tail(target, n as int);
            assert(target.take(n as int) =~= intersection_of(old(self)@, rhs@));
        }
        let padding = slots - n;
        self.number_of_zero_registers = zeros - padding;
        proof {
            assert(self@ =~= intersection_of(old(self)@, rhs@));
        }
    }

    /// The intersection of two counters.
    pub fn bitand(self, rhs: &Self) -> (merged: Self)
        requires
            self.wf(),
            rhs.wf(),
        ensures
            merged.wf(),
            merged@ == intersection_of(self@, rhs@),
    {
        let mut merged = self;
        merged.bitand_assign(rhs);
        merged
    }

    /// Number of padding registers: slots of the storage behind the last
    /// register, which are there because a word holds a whole number of
    /// registers.
    pub fn get_number_of_padding_registers(&self) -> (padding: usize)
        requires
            self.wf(),
        ensures
            padding == crate::array::slots_in(
                crate::array::words_needed(
                    number_of_registers(PRECISION as nat),
                    BITS as nat,
                    false,
                ),
                BITS as nat,
                false,
            ) - number_of_registers(PRECISION as nat),
    {
        proof {
            self.lemma_wf();
            self.registers.lemma_wf();
        }
        self.registers.capacity() - Self::register_count()
    }
}

impl<const PRECISION: usize, const BITS: usize> PartialEq for HyperLogLog<PRECISION, BITS> {
    /// Whether the two counters have the same storage, bit by bit, and the
    /// same number of zero registers.
    fn eq(&self, other: &Self) -> (equal: bool) {
        let same_storage = self.registers.eq(&other.registers);
        same_storage && self.number_of_zero_registers == other.number_of_zero_registers
    }
}

impl<const PRECISION: usize, const BITS: usize> PartialEqSpecImpl for HyperLogLog<PRECISION, BITS> {
    open spec fn obeys_eq_spec() -> bool {
        true
    }

    /// Two counters are equal where their fields are.
    open spec fn eq_spec(&self, other: &Self) -> bool {
        self.same_fields(other)
    }
}

impl<const PRECISION: usize, const BITS: usize> Eq for HyperLogLog<PRECISION, BITS> {

}

impl<const PRECISION: usize, const BITS: usize> HyperLogLog<PRECISION, BITS> {
    /// The storage of the two counters is the same, bit by bit, and they
    /// count the same number of zero registers.
    pub closed spec fn same_fields(&self, other: &Self) -> bool {
        &&& self.number_of_zero_registers == other.number_of_zero_registers
        &&& PartialEqSpec::eq_spec(&self.registers, &other.registers)
    }

    /// Two counters are equal exactly where they hold the same registers.
    pub proof fn lemma_equal(&self, other: &Self)
        requires
            self.wf(),
            other.wf(),
        ensures
            PartialEqSpec::eq_spec(self, other) <==> self@ == other@,
    {
        self.registers.lemma_wf();
        other.registers.lemma_wf();
        self.registers.lemma_equal(&other.registers);
        lemma_max_register(BITS as nat);
        if self@ == other@ {
            assert forall|i: int| 0 <= i < self.registers@.len() implies self.registers@[i]
                == other.registers@[i] by {
                if i < number_of_registers(PRECISION as nat) {
                    assert(self@[i] == other@[i]);
                    assert(self.registers@[i] <= self.registers.max_value());
                    assert(other.registers@[i] <= other.registers.max_value());
                }
            }
            assert(self.registers@ =~= other.registers@);
        }
    }
}

impl<const PRECISION: usize, const BITS: usize> Clone for HyperLogLog<PRECISION, BITS> {
    /// A counter with the same registers.
    fn clone(&self) -> (copy: Self)
        ensures
            copy.wf() == self.wf(),
            copy@ == self@,
            copy.zero_registers() == self.zero_registers(),
            copy.same_fields(self),
    {
        HyperLogLog {
            registers: self.registers.clone(),
            number_of_zero_registers: self.number_of_zero_registers,
        }
    }
}

/// A cursor over the registers of a counter, from the first to the last.
pub struct RegisterIter<'a, const PRECISION: usize, const BITS: usize> {
    counter: &'a HyperLogLog<PRECISION, BITS>,
    index: usize,
}

impl<'a, const PRECISION: usize, const BITS: usize> RegisterIter<'a, PRECISION, BITS> {
    /// The registers that the cursor has not handed out yet.
    pub closed spec fn remaining(&self) -> Seq<u32> {
        self.counter@.skip(self.index as int)
    }

    /// The cursor stands on a valid counter, at or before its end.
    pub closed spec fn wf(&self) -> bool {
        &&& self.counter.wf()
        &&& self.index <= self.counter@.len()
    }

    /// Hands out the next register, or `None` behind the last.
    pub fn next(&mut self) -> (register: Option<u32>)
        requires
            old(self).wf(),
        ensures
            final(self).wf(),
            old(self).remaining().len() == 0 ==> register is None && final(self).remaining()
                == old(self).remaining(),
            old(self).remaining().len() > 0 ==> register == Some(old(self).remaining()[0])
                && final(self).remaining() == old(self).remaining().skip(1),
    {
        let n = self.counter.len();
        if self.index < n {
            let value = self.counter.get_register(self.index);
            proof {
                assert(self.counter@.skip(self.index as int).skip(1) =~= self.counter@.skip(
                    self.index + 1,
                ));
            }
            self.index = self.index + 1;
            Some(value)
        } else {
            None
        }
    }
}

/// Inserting the same element twice leaves the registers as inserting it once
/// does.
pub proof fn lemma_insert_idempotent(registers: Seq<u32>, hash: u64, precision: nat, bits: nat)
    requires
        hash_index(hash, precision) < registers.len(),
    ensures
        inserted(inserted(registers, hash, precision, bits), hash, precision, bits) == inserted(
            registers,
            hash,
            precision,
            bits,
        ),
{
    let once = inserted(registers, hash, precision, bits);
    assert(inserted(once, hash, precision, bits) =~= once);
}

/// Insertions commute: two elements leave the same registers in either order.
pub proof fn lemma_insert_commutes(
    registers: Seq<u32>,
    first: u64,
    second: u64,
    precision: nat,
    bits: nat,
)
    requires
        hash_index(first, precision) < registers.len(),
        hash_index(second, precision) < registers.len(),
    ensures
        inserted(inserted(registers, first, precision, bits), second, precision, bits)
            == inserted(inserted(registers, second, precision, bits), first, precision, bits),
{
    assert(inserted(inserted(registers, first, precision, bits), second, precision, bits)
        =~= inserted(inserted(registers, second, precision, bits), first, precision, bits));
}

/// The union does not depend on the order of its operands.
pub proof fn lemma_union_commutative(a: Seq<u32>, b: Seq<u32>)
    requires
        a.len() == b.len(),
    ensures
        union_of(a, b) == union_of(b, a),
{
    assert(union_of(a, b) =~= union_of(b, a));
}

/// The union of three counters does not depend on which two are merged first.
pub proof fn lemma_union_associative(a: Seq<u32>, b: Seq<u32>, c: Seq<u32>)
    requires
        a.len() == b.len(),
        b.len() == c.len(),
    ensures
        union_of(union_of(a, b), c) == union_of(a, union_of(b, c)),
{
    assert(union_of(union_of(a, b), c) =~= union_of(a, union_of(b, c)));
}

/// The union of a counter with itself is that counter.
pub proof fn lemma_union_idempotent(a: Seq<u32>)
    ensures
        union_of(a, a) == a,
{
    assert(union_of(a, a) =~= a);
}

/// The union of a counter with the empty counter is that counter.
pub proof fn lemma_union_identity(a: Seq<u32>, precision: nat)
    requires
        a.len() == number_of_registers(precision),
    ensures
        union_of(a, empty_registers(precision)) == a,
        union_of(empty_registers(precision), a) == a,
{
    assert(union_of(a, empty_registers(precision)) =~= a);
    assert(union_of(empty_registers(precision), a) =~= a);
}

/// The intersection does not depend on the order of its operands.
pub proof fn lemma_intersection_commutative(a: Seq<u32>, b: Seq<u32>)
    requires
        a.len() == b.len(),
    ensures
        intersection_of(a, b) == intersection_of(b, a),
{
    assert(intersection_of(a, b) =~= intersection_of(b, a));
}

/// The intersection of a counter with the empty counter is the empty counter.
pub proof fn lemma_intersection_empty(a: Seq<u32>, precision: nat)
    requires
        a.len() == number_of_registers(precision),
    ensures
        intersection_of(a, empty_registers(precision)) == empty_registers(precision),
        intersection_of(empty_registers(precision), a) == empty_registers(precision),
{
    assert(intersection_of(a, empty_registers(precision)) =~= empty_registers(precision));
    assert(intersection_of(empty_registers(precision), a) =~= empty_registers(precision));
}

/// The intersection of a counter with itself is that counter.
pub proof fn lemma_intersection_idempotent(a: Seq<u32>)
    ensures
        intersection_of(a, a) == a,
{
    assert(intersection_of(a, a) =~= a);
}

} // verus!
