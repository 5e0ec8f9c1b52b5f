//! The hybrid counter: an exact, sorted list of digests for as long as the
//! list takes no more room than the registers would, and a HyperLogLog counter
//! from then on.
use crate::array::{lemma_registers_per_word, words_needed};
use crate::hashing::digest;
use crate::hyperloglog::{
    empty_registers, hash_index, inserted, lemma_hash_parts, lemma_power_of_two,
    number_of_registers, parameter_error, stored_rank, union_of, HyperLogLog, HyperLogLogError,
    MAX_BITS, MAX_PRECISION, MIN_BITS, MIN_PRECISION,
};
use std::hash::Hash;
use vstd::prelude::*;
use vstd::set::axiom_set_insert_len;
use vstd::std_specs::cmp::{PartialEqSpec, PartialEqSpecImpl};

verus! {

/// Every entry is smaller than the entries behind it: the sequence is ordered
/// and holds nothing twice.
pub open spec fn strictly_sorted(values: Seq<u64>) -> bool {
    forall|i: int, j: int| 0 <= i < j < values.len() ==> values[i] < values[j]
}

/// The first `n + 1` entries hold what the first `n` hold and entry `n`.
pub proof fn lemma_take_next(values: Seq<u64>, n: int)
    requires
        0 <= n < values.len(),
    ensures
        values.take(n + 1).to_set() == values.take(n).to_set().insert(values[n]),
{
    assert(values.take(n + 1) =~= values.take(n).push(values[n]));
    values.take(n).lemma_push_to_set_commute(values[n]);
}

/// Returns the number of distinct values in two sorted sequences taken
/// together. Each sequence must be ordered and hold no value twice.
pub fn unique_values_from_sorted_iterators(left: &[u64], right: &[u64]) -> (count: u32)
    requires
        strictly_sorted(left@),
        strictly_sorted(right@),
        left@.len() + right@.len() <= u32::MAX,
    ensures
        count == left@.to_set().union(right@.to_set()).len(),
{
    let mut count: u32 = 0;
    let mut i: usize = 0;
    let mut j: usize = 0;
    let ghost mut seen: Set<u64> = Set::empty();
    proof {
        assert(left@.take(0).to_set() =~= Set::<u64>::empty());
        assert(right@.take(0).to_set() =~= Set::<u64>::empty());
        assert(seen =~= left@.take(0).to_set().union(right@.take(0).to_set()));
    }
    while i < left.len() || j < right.len()
        invariant
            strictly_sorted(left@),
            strictly_sorted(right@),
            left@.len() + right@.len() <= u32::MAX,
            i <= left@.len(),
            j <= right@.len(),
            seen == left@.take(i as int).to_set().union(right@.take(j as int).to_set()),
            seen.finite(),
            count == seen.len(),
            count <= i + j,
            forall|x: u64| seen.contains(x) && i < left@.len() ==> x < left@[i as int],
            forall|x: u64| seen.contains(x) && j < right@.len() ==> x < right@[j as int],
        decreases left@.len() - i + right@.len() - j,
    {
        let take_left = j == right.len() || (i < left.len() && left[i] <= right[j]);
        let take_right = i == left.len() || (j < right.len() && right[j] <= left[i]);
        let ghost value = if take_left {
            left@[i as int]
        } else {
            right@[j as int]
        };
        proof {
            axiom_set_insert_len(seen, value);
            if take_left {
                lemma_take_next(left@, i as int);
            }
            if take_right {
                lemma_take_next(right@, j as int);
            }
            let next_i = if take_left {
                i + 1
            } else {
                i as int
            };
            let next_j = if take_right {
                j + 1
            } else {
                j as int
            };
            assert(seen.insert(value) =~= left@.take(next_i).to_set().union(
                right@.take(next_j).to_set(),
            ));
            seen = seen.insert(value);
        }
        if take_left {
            i += 1;
        }
        if take_right {
            j += 1;
        }
        count += 1;
    }
    proof {
        assert(left@.take(i as int) =~= left@);
        assert(right@.take(j as int) =~= right@);
    }
    count
}

/// The registers of a counter into which the digests were inserted one after
/// the other, from the first to the last.
pub open spec fn replayed(hashes: Seq<u64>, precision: nat, bits: nat) -> Seq<u32>
    decreases hashes.len(),
{
    if hashes.len() == 0 {
        empty_registers(precision)
    } else {
        inserted(replayed(hashes.drop_last(), precision, bits), hashes.last(), precision, bits)
    }
}

/// What the registers hold after digests were inserted: every register holds
/// at least what each digest that falls into it writes, and it is zero or
/// holds exactly what one of them writes.
pub proof fn lemma_replayed(hashes: Seq<u64>, precision: nat, bits: nat)
    requires
        parameter_error(precision, bits) is None,
    ensures
        replayed(hashes, precision, bits).len() == number_of_registers(precision),
        forall|k: int|
            0 <= k < hashes.len() ==> stored_rank(#[trigger] hashes[k], precision, bits)
                <= replayed(hashes, precision, bits)[hash_index(hashes[k], precision) as int],
        forall|i: int|
            0 <= i < number_of_registers(precision) ==> #[trigger] replayed(
                hashes,
                precision,
                bits,
            )[i] == 0 || exists|k: int|
                0 <= k < hashes.len() && hash_index(#[trigger] hashes[k], precision) == i
                    && stored_rank(hashes[k], precision, bits) == replayed(
                    hashes,
                    precision,
                    bits,
                )[i],
    decreases hashes.len(),
{
    let after = replayed(hashes, precision, bits);
    if hashes.len() > 0 {
        let front = hashes.drop_last();
        let before = replayed(front, precision, bits);
        let last = hashes.last();
        lemma_replayed(front, precision, bits);
        lemma_hash_parts(last, precision);
        let at = hash_index(last, precision) as int;
        assert forall|k: int| 0 <= k < hashes.len() implies stored_rank(
            #[trigger] hashes[k],
            precision,
            bits,
        ) <= after[hash_index(hashes[k], precision) as int] by {
            lemma_hash_parts(hashes[k], precision);
            if k < front.len() {
                assert(front[k] == hashes[k]);
            }
        }
        assert forall|i: int| 0 <= i < number_of_registers(precision) implies #[trigger] after[i]
            == 0 || exists|k: int|
            0 <= k < hashes.len() && hash_index(#[trigger] hashes[k], precision) == i
                && stored_rank(hashes[k], precision, bits) == after[i] by {
            if i == at && after[i] != before[i] {
                assert(hash_index(hashes[hashes.len() - 1], precision) == i);
            } else if before[i] != 0 {
                let k = choose|k: int|
                    0 <= k < front.len() && hash_index(#[trigger] front[k], precision) == i
                        && stored_rank(front[k], precision, bits) == before[i];
                assert(hashes[k] == front[k]);
            }
        }
    }
}

/// The registers depend on which digests were inserted, and neither on their
/// order nor on how often each was.
pub proof fn lemma_replay_depends_on_set(
    first: Seq<u64>,
    second: Seq<u64>,
    precision: nat,
    bits: nat,
)
    requires
        parameter_error(precision, bits) is None,
        first.to_set() == second.to_set(),
    ensures
        replayed(first, precision, bits) == replayed(second, precision, bits),
{
    let a = replayed(first, precision, bits);
    let b = replayed(second, precision, bits);
    lemma_replayed(first, precision, bits);
    lemma_replayed(second, precision, bits);
    assert forall|i: int| 0 <= i < a.len() implies a[i] == b[i] by {
        if a[i] != 0 {
            let k = choose|k: int|
                0 <= k < first.len() && hash_index(#[trigger] first[k], precision) == i
                    && stored_rank(first[k], precision, bits) == a[i];
            assert(first.to_set().contains(first[k]));
            assert(second.contains(first[k]));
            let m = choose|m: int| 0 <= m < second.len() && second[m] == first[k];
            assert(stored_rank(second[m], precision, bits) <= b[i]);
        }
        if b[i] != 0 {
            let k = choose|k: int|
                0 <= k < second.len() && hash_index(#[trigger] second[k], precision) == i
                    && stored_rank(second[k], precision, bits) == b[i];
            assert(second.to_set().contains(second[k]));
            assert(first.contains(second[k]));
            let m = choose|m: int| 0 <= m < first.len() && first[m] == second[k];
            assert(stored_rank(first[m], precision, bits) <= a[i]);
        }
    }
    assert(a =~= b);
}

/// The place of `hash` in an ordered list: the number of entries below it.
fn lower_bound(list: &Vec<u64>, hash: u64) -> (place: usize)
    requires
        strictly_sorted(list@),
    ensures
        place <= list@.len(),
        forall|k: int| 0 <= k < place ==> list@[k] < hash,
        forall|k: int| place <= k < list@.len() ==> hash <= list@[k],
{
    let mut low: usize = 0;
    let mut high: usize = list.len();
    while low < high
        invariant
            strictly_sorted(list@),
            low <= high <= list@.len(),
            forall|k: int| 0 <= k < low ==> list@[k] < hash,
            forall|k: int| high <= k < list@.len() ==> hash <= list@[k],
        decreases high - low,
    {
        let middle = low + (high - low) / 2;
        if list[middle] < hash {
            low = middle + 1;
        } else {
            high = middle;
        }
    }
    low
}

/// Number of digests that a hybrid counter keeps before it turns to registers:
/// as many as the registers take 64-bit words, so that the list never takes
/// more room than they would.
pub open spec fn hybrid_capacity(precision: nat, bits: nat) -> nat {
    words_needed(number_of_registers(precision), bits, false)
}

/// The list of a hybrid counter holds at least one digest and no more than
/// there are registers.
pub proof fn lemma_hybrid_capacity(precision: nat, bits: nat)
    requires
        parameter_error(precision, bits) is None,
    ensures
        1 <= hybrid_capacity(precision, bits) <= number_of_registers(precision),
        number_of_registers(precision) <= 262144,
{
    lemma_power_of_two(precision);
    lemma_registers_per_word(bits);
    let registers = number_of_registers(precision) as int;
    let per_word = crate::array::registers_per_word(bits) as int;
    let words = hybrid_capacity(precision, bits) as int;
    assert(1 <= words <= registers) by (nonlinear_arith)
        requires
            words == (registers + per_word - 1) / per_word,
            1 <= per_word,
            1 <= registers,
    ;
}

/// What an insertion into a counter in hybrid mode leads to, given the list
/// `hashes` before it and the capacity of the list. A digest that the list
/// holds changes nothing. A new one joins the list while the list has room.
/// Where it has none, the counter turns to registers: those of all the digests
/// of the list and of the new one.
pub open spec fn hybrid_insert_outcome(
    hashes: Seq<u64>,
    capacity: nat,
    precision: nat,
    bits: nat,
    hash: u64,
    after_is_hybrid: bool,
    after_hashes: Seq<u64>,
    after_registers: Seq<u32>,
    changed: bool,
) -> bool {
    if hashes.contains(hash) {
        &&& !changed
        &&& after_is_hybrid
        &&& after_hashes == hashes
    } else if hashes.len() < capacity {
        &&& changed
        &&& after_is_hybrid
        &&& strictly_sorted(after_hashes)
        &&& after_hashes.len() == hashes.len() + 1
        &&& after_hashes.to_set() == hashes.to_set().insert(hash)
    } else {
        &&& changed
        &&& !after_is_hybrid
        &&& after_registers == inserted(replayed(hashes, precision, bits), hash, precision, bits)
    }
}

/// A counter that begins as an exact list of digests and can turn to
/// registers, once and for good.
pub trait Hybridazable: Sized {
    /// The counter is in one of its two modes, and consistent in it.
    spec fn hybrid_wf(&self) -> bool;

    /// Whether the counter still keeps its digests as a list.
    spec fn spec_is_hybrid(&self) -> bool;

    /// The digests of the list, in ascending order; empty once the counter
    /// has turned to registers.
    spec fn sorted_hashes(&self) -> Seq<u64>;

    /// The registers, once the counter has turned to them.
    spec fn register_values(&self) -> Seq<u32>;

    /// Number of digests that the list may hold.
    spec fn spec_capacity(&self) -> nat;

    /// The precision exponent of the registers.
    spec fn spec_precision() -> nat;

    /// The width of a register in bits.
    spec fn spec_bits() -> nat;

    /// Turns the counter to registers: every digest of the list is inserted
    /// into an empty register counter, and the list is dropped. A counter
    /// that holds registers already keeps them.
    fn dehybridize(&mut self)
        requires
            old(self).hybrid_wf(),
        ensures
            final(self).hybrid_wf(),
            !final(self).spec_is_hybrid(),
            final(self).register_values() == if old(self).spec_is_hybrid() {
                replayed(old(self).sorted_hashes(), Self::spec_precision(), Self::spec_bits())
            } else {
                old(self).register_values()
            },
    ;

    /// A new counter in hybrid mode, with an empty list. It is refused where
    /// the precision or the register width is not supported.
    fn new_hybrid() -> (made: Result<Self, HyperLogLogError>)
        ensures
            match made {
                Ok(counter) => {
                    &&& parameter_error(Self::spec_precision(), Self::spec_bits()) is None
                    &&& counter.hybrid_wf()
                    &&& counter.spec_is_hybrid()
                    &&& counter.sorted_hashes().len() == 0
                },
                Err(e) => parameter_error(Self::spec_precision(), Self::spec_bits()) == Some(e),
            },
    ;

    /// Whether the counter still keeps its digests as a list.
    fn is_hybrid(&self) -> (hybrid: bool)
        ensures
            hybrid == self.spec_is_hybrid(),
    ;

    /// Number of digests in the list.
    fn number_of_hashes(&self) -> (n: usize)
        ensures
            n == self.sorted_hashes().len(),
    ;

    /// Number of digests that the list may hold.
    fn capacity(&self) -> (n: usize)
        requires
            self.hybrid_wf(),
        ensures
            n == self.spec_capacity(),
    ;

    /// Empties the counter and puts it back into hybrid mode.
    fn clear_words(&mut self)
        requires
            old(self).hybrid_wf(),
        ensures
            final(self).hybrid_wf(),
            final(self).spec_is_hybrid(),
            final(self).sorted_hashes().len() == 0,
    ;

    /// The digests of the list, in ascending order.
    fn iter_sorted_hashes(&self) -> (hashes: Vec<u64>)
        ensures
            hashes@ == self.sorted_hashes(),
    ;

    /// Whether the digest of the element is in the list.
    fn contains<T: Hash>(&self, element: &T) -> (found: bool)
        requires
            self.hybrid_wf(),
        ensures
            exists|hash: u64| found == #[trigger] self.sorted_hashes().contains(hash),
    ;

    /// Inserts the digest of a value into a counter in hybrid mode, and
    /// returns whether the counter changed.
    fn hybrid_insert<T: Hash>(&mut self, value: &T) -> (changed: bool)
        requires
            old(self).hybrid_wf(),
            old(self).spec_is_hybrid(),
        ensures
            final(self).hybrid_wf(),
            exists|hash: u64| #[trigger]
                hybrid_insert_outcome(
                    old(self).sorted_hashes(),
                    old(self).spec_capacity(),
                    Self::spec_precision(),
                    Self::spec_bits(),
                    hash,
                    final(self).spec_is_hybrid(),
                    final(self).sorted_hashes(),
                    final(self).register_values(),
                    changed,
                ),
    ;
}

/// How a hybrid counter holds what it has seen.
#[derive(Debug)]
enum Representation<const PRECISION: usize, const BITS: usize> {
    /// The digests seen so far, ascending, none twice.
    Hashes(Vec<u64>),
    /// The registers, after the list ran out of room.
    Registers(HyperLogLog<PRECISION, BITS>),
}

/// A counter that is exact while it has seen few elements. It keeps their
/// digests in an ordered list, and turns into a HyperLogLog counter of
/// `2^PRECISION` registers of `BITS` bits when the list would take more room
/// than the registers.
#[derive(Debug)]
pub struct Hybrid<const PRECISION: usize, const BITS: usize> {
    inner: Representation<PRECISION, BITS>,
}

impl<const PRECISION: usize, const BITS: usize> Hybrid<PRECISION, BITS> {
    /// Number of digests that the list may hold, as a machine integer.
    fn list_capacity() -> (n: usize)
        requires
            parameter_error(PRECISION as nat, BITS as nat) is None,
        ensures
            n == hybrid_capacity(PRECISION as nat, BITS as nat),
            1 <= n <= 262144,
    {
        proof {
            lemma_power_of_two(PRECISION as nat);
            lemma_registers_per_word(BITS as nat);
            lemma_hybrid_capacity(PRECISION as nat, BITS as nat);
        }
        let registers: usize = (1u32 << (PRECISION as u32)) as usize;
        let per_word: usize = 64 / BITS;
        (registers + per_word - 1) / per_word
    }

    /// What validity gives to a caller: supported parameters, a list that is
    /// ordered, holds nothing twice and is within the capacity, and, once the
    /// counter has turned to registers, an empty list and one register for
    /// each bucket.
    pub proof fn lemma_hybrid_wf(&self)
        requires
            self.hybrid_wf(),
        ensures
            parameter_error(PRECISION as nat, BITS as nat) is None,
            self.spec_capacity() == hybrid_capacity(PRECISION as nat, BITS as nat),
            strictly_sorted(self.sorted_hashes()),
            self.sorted_hashes().no_duplicates(),
            self.sorted_hashes().len() == self.sorted_hashes().to_set().len(),
            self.sorted_hashes().len() <= self.spec_capacity(),
            !self.spec_is_hybrid() ==> self.sorted_hashes().len() == 0
                && self.register_values().len() == number_of_registers(PRECISION as nat),
    {
        let hashes = self.sorted_hashes();
        assert(hashes.no_duplicates()) by {
            assert forall|i: int, j: int| 0 <= i < hashes.len() && 0 <= j < hashes.len() && i
                != j implies hashes[i] != hashes[j] by {
                if i < j {
                    assert(hashes[i] < hashes[j]);
                } else {
                    assert(hashes[j] < hashes[i]);
                }
            }
        }
        hashes.unique_seq_to_set();
        match self.inner {
            Representation::Hashes(_) => {},
            Representation::Registers(counter) => {
                counter.lemma_wf();
            },
        }
    }

    /// The registers that stand for what the counter has seen: its own once
    /// it has turned to them, and before that those of the digests of its
    /// list.
    pub open spec fn registers_of(&self) -> Seq<u32> {
        if self.spec_is_hybrid() {
            replayed(self.sorted_hashes(), PRECISION as nat, BITS as nat)
        } else {
            self.register_values()
        }
    }

    /// Whether the digest is in the list.
    pub fn contains_hash(&self, hash: u64) -> (found: bool)
        requires
            self.hybrid_wf(),
        ensures
            found == self.sorted_hashes().contains(hash),
    {
        match &self.inner {
            Representation::Hashes(list) => {
                let place = lower_bound(list, hash);
                let found = place < list.len() && list[place] == hash;
                proof {
                    if found {
                        assert(list@[place as int] == hash);
                    }
                }
                found
            },
            Representation::Registers(_) => false,
        }
    }

    /// Inserts a digest into a counter in hybrid mode, and returns whether the
    /// counter changed.
    pub fn hybrid_insert_hash(&mut self, hash: u64) -> (changed: bool)
        requires
            old(self).hybrid_wf(),
            old(self).spec_is_hybrid(),
        ensures
            final(self).hybrid_wf(),
            hybrid_insert_outcome(
                old(self).sorted_hashes(),
                old(self).spec_capacity(),
                PRECISION as nat,
                BITS as nat,
                hash,
                final(self).spec_is_hybrid(),
                final(self).sorted_hashes(),
                final(self).register_values(),
                changed,
            ),
    {
        let capacity = Self::list_capacity();
        let mut promote = false;
        let mut changed = false;
        match &mut self.inner {
            Representation::Hashes(list) => {
                let place = lower_bound(list, hash);
                if place < list.len() && list[place] == hash {
                    proof {
                        assert(list@[place as int] == hash);
                    }
                } else if list.len() < capacity {
                    let ghost before = list@;
                    list.insert(place, hash);
                    changed = true;
                    proof {
                        let after = before.insert(place as int, hash);
                        assert(after[place as int] == hash);
                        assert forall|x: u64|
                            after.to_set().contains(x) <==> before.to_set().insert(hash).contains(
                                x,
                            ) by {
                            if after.contains(x) {
                                let k = choose|k: int| 0 <= k < after.len() && after[k] == x;
                                if k < place {
                                    assert(before[k] == x);
                                } else if k > place {
                                    assert(before[k - 1] == x);
                                }
                            }
                            if before.contains(x) {
                                let k = choose|k: int| 0 <= k < before.len() && before[k] == x;
                                if k < place {
                                    assert(after[k] == x);
                                } else {
                                    assert(after[k + 1] == x);
                                }
                            }
                        }
                        assert(after.to_set() =~= before.to_set().insert(hash));
                    }
                } else {
                    promote = true;
                }
            },
            Representation::Registers(_) => {},
        }
        if promote {
            self.dehybridize();
            match &mut self.inner {
                Representation::Hashes(_) => {},
                Representation::Registers(counter) => {
                    counter.insert_hash(hash);
                    changed = true;
                },
            }
        }
        changed
    }

    /// A new counter in hybrid mode, with an empty list. It is refused where
    /// the precision or the register width is not supported.
    pub fn new() -> (made: Result<Self, HyperLogLogError>)
        ensures
            match made {
                Ok(counter) => {
                    &&& parameter_error(PRECISION as nat, BITS as nat) is None
                    &&& counter.hybrid_wf()
                    &&& counter.spec_is_hybrid()
                    &&& counter.sorted_hashes().len() == 0
                },
                Err(e) => parameter_error(PRECISION as nat, BITS as nat) == Some(e),
            },
    {
        Self::new_hybrid()
    }

    /// A register counter that stands for what this counter has seen: a copy
    /// of its registers once it has turned to them, and before that the
    /// registers of the digests of its list.
    pub fn to_counter(&self) -> (counter: HyperLogLog<PRECISION, BITS>)
        requires
            self.hybrid_wf(),
        ensures
            counter.wf(),
            counter@ == self.registers_of(),
    {
        match &self.inner {
            Representation::Hashes(list) => {
                let mut counter = match HyperLogLog::<PRECISION, BITS>::new() {
                    Ok(counter) => counter,
                    Err(_) => unreached(),
                };
                let mut index: usize = 0;
                proof {
                    assert(list@.take(0) =~= Seq::<u64>::empty());
                }
                while index < list.len()
                    invariant
                        index <= list@.len(),
                        counter.wf(),
                        counter@ == replayed(
                            list@.take(index as int),
                            PRECISION as nat,
                            BITS as nat,
                        ),
                    decreases list@.len() - index,
                {
                    counter.insert_hash(list[index]);
                    proof {
                        assert(list@.take(index + 1).drop_last() =~= list@.take(index as int));
                    }
                    index += 1;
                }
                proof {
                    assert(list@.take(index as int) =~= list@);
                }
                counter
            },
            Representation::Registers(counter) => counter.clone(),
        }
    }

    /// What the insertion of an element with digest `hash` makes of this
    /// counter. In hybrid mode the digest joins the list, or the counter turns
    /// to registers where the list has no room. A counter that holds registers
    /// keeps to them, and its registers are those that the insertion into a
    /// register counter gives. Either way the registers that stand for what
    /// the counter has seen are those that this insertion gives.
    pub open spec fn insert_outcome(&self, hash: u64, after: &Self, changed: bool) -> bool {
        &&& if self.spec_is_hybrid() {
            hybrid_insert_outcome(
                self.sorted_hashes(),
                self.spec_capacity(),
                PRECISION as nat,
                BITS as nat,
                hash,
                after.spec_is_hybrid(),
                after.sorted_hashes(),
                after.register_values(),
                changed,
            )
        } else {
            &&& !after.spec_is_hybrid()
            &&& changed <==> after.register_values() != self.register_values()
            &&& changed <==> self.register_values()[hash_index(hash, PRECISION as nat) as int]
                < stored_rank(hash, PRECISION as nat, BITS as nat)
        }
        &&& after.registers_of() == inserted(
            self.registers_of(),
            hash,
            PRECISION as nat,
            BITS as nat,
        )
    }

    /// Inserts an element by its digest, and returns whether the counter
    /// changed.
    pub fn insert_hash(&mut self, hash: u64) -> (changed: bool)
        requires
            old(self).hybrid_wf(),
        ensures
            final(self).hybrid_wf(),
            old(self).insert_outcome(hash, final(self), changed),
    {
        if self.is_hybrid() {
            let changed = self.hybrid_insert_hash(hash);
            proof {
                let before = old(self).sorted_hashes();
                lemma_replayed(before, PRECISION as nat, BITS as nat);
                lemma_hash_parts(hash, PRECISION as nat);
                let direct = before.push(hash);
                assert(direct.drop_last() =~= before);
                assert(replayed(direct, PRECISION as nat, BITS as nat) == inserted(
                    replayed(before, PRECISION as nat, BITS as nat),
                    hash,
                    PRECISION as nat,
                    BITS as nat,
                ));
                if before.contains(hash) {
                    let k = choose|k: int| 0 <= k < before.len() && before[k] == hash;
                    assert(stored_rank(before[k], PRECISION as nat, BITS as nat) <= replayed(
                        before,
                        PRECISION as nat,
                        BITS as nat,
                    )[hash_index(before[k], PRECISION as nat) as int]);
                    assert(replayed(before, PRECISION as nat, BITS as nat) =~= inserted(
                        replayed(before, PRECISION as nat, BITS as nat),
                        hash,
                        PRECISION as nat,
                        BITS as nat,
                    ));
                } else if self.spec_is_hybrid() {
                    before.lemma_push_to_set_commute(hash);
                    lemma_replay_depends_on_set(
                        self.sorted_hashes(),
                        direct,
                        PRECISION as nat,
                        BITS as nat,
                    );
                }
            }
            changed
        } else {
            match &mut self.inner {
                Representation::Hashes(_) => false,
                Representation::Registers(counter) => counter.insert_hash(hash),
            }
        }
    }

    /// Inserts an element, and returns whether the counter changed. The
    /// element is hashed, and its digest inserted.
    pub fn insert<T: Hash>(&mut self, element: &T) -> (changed: bool)
        requires
            old(self).hybrid_wf(),
        ensures
            final(self).hybrid_wf(),
            exists|hash: u64| #[trigger] old(self).insert_outcome(hash, final(self), changed),
    {
        let hash = digest(element);
        self.insert_hash(hash)
    }

    /// Whether an element with this digest may have been inserted. In hybrid
    /// mode the answer is exact: the digest is in the list or it is not. Once
    /// the counter holds registers, the register that the digest falls into
    /// must hold at least what the digest writes, which it also may for an
    /// element that never was inserted.
    pub open spec fn spec_may_contain(&self, hash: u64) -> bool {
        if self.spec_is_hybrid() {
            self.sorted_hashes().contains(hash)
        } else {
            self.register_values()[hash_index(hash, PRECISION as nat) as int] >= stored_rank(
                hash,
                PRECISION as nat,
                BITS as nat,
            )
        }
    }

    /// Whether an element with this digest may have been inserted.
    pub fn may_contain_hash(&self, hash: u64) -> (found: bool)
        requires
            self.hybrid_wf(),
        ensures
            found == self.spec_may_contain(hash),
    {
        match &self.inner {
            Representation::Hashes(_) => self.contains_hash(hash),
            Representation::Registers(counter) => counter.may_contain_hash(hash),
        }
    }

    /// Whether the element may have been inserted. It may where its digest may.
    pub fn may_contain<T: Hash>(&self, element: &T) -> (found: bool)
        requires
            self.hybrid_wf(),
        ensures
            exists|hash: u64| found == #[trigger] self.spec_may_contain(hash),
    {
        let hash = digest(element);
        self.may_contain_hash(hash)
    }

    /// Whether the counter has seen nothing: the list is empty, or every
    /// register is zero.
    pub fn is_empty(&self) -> (empty: bool)
        requires
            self.hybrid_wf(),
        ensures
            self.spec_is_hybrid() ==> (empty <==> self.sorted_hashes().len() == 0),
            !self.spec_is_hybrid() ==> (empty <==> forall|i: int|
                0 <= i < self.register_values().len() ==> #[trigger] self.register_values()[i]
                    == 0),
    {
        match &self.inner {
            Representation::Hashes(list) => list.len() == 0,
            Representation::Registers(counter) => {
                let empty = counter.is_empty();
                proof {
                    assert(self.register_values() == counter@);
                }
                empty
            },
        }
    }

    /// Whether the counter has no room left: the list is at its capacity, or
    /// no register is zero.
    pub fn is_full(&self) -> (full: bool)
        requires
            self.hybrid_wf(),
        ensures
            self.spec_is_hybrid() ==> (full <==> self.sorted_hashes().len()
                == self.spec_capacity()),
            !self.spec_is_hybrid() ==> (full <==> forall|i: int|
                0 <= i < self.register_values().len() ==> #[trigger] self.register_values()[i]
                    != 0),
    {
        match &self.inner {
            Representation::Hashes(list) => list.len() == Self::list_capacity(),
            Representation::Registers(counter) => {
                let full = counter.is_full();
                proof {
                    assert(self.register_values() == counter@);
                }
                full
            },
        }
    }

    /// Empties the counter and puts it back into hybrid mode.
    pub fn clear(&mut self)
        requires
            old(self).hybrid_wf(),
        ensures
            final(self).hybrid_wf(),
            final(self).spec_is_hybrid(),
            final(self).sorted_hashes().len() == 0,
    {
        self.clear_words();
    }

    /// The number of distinct elements seen, where the counter knows it: in
    /// hybrid mode, the length of the list. A counter that holds registers can
    /// only estimate it, and gives `None`.
    pub fn exact_cardinality(&self) -> (count: Option<usize>)
        requires
            self.hybrid_wf(),
        ensures
            count is Some <==> self.spec_is_hybrid(),
            count matches Some(n) ==> n == self.sorted_hashes().len() && n
                == self.sorted_hashes().to_set().len(),
    {
        proof {
            self.lemma_hybrid_wf();
        }
        match &self.inner {
            Representation::Hashes(list) => Some(list.len()),
            Representation::Registers(_) => None,
        }
    }

    /// Whether an estimate of the union of the two counters rests on
    /// registers, and so carries their error: it does unless both counters
    /// are in hybrid mode.
    pub fn is_union_estimate_non_deterministic(&self, other: &Self) -> (uncertain: bool)
        ensures
            uncertain <==> !(self.spec_is_hybrid() && other.spec_is_hybrid()),
    {
        !(self.is_hybrid() && other.is_hybrid())
    }

    /// The number of distinct elements that the two counters have seen
    /// together, where both know theirs: in hybrid mode, the number of
    /// distinct digests in the two lists. `None` where either counter holds
    /// registers.
    pub fn exact_union_cardinality(&self, other: &Self) -> (count: Option<u32>)
        requires
            self.hybrid_wf(),
            other.hybrid_wf(),
        ensures
            count is Some <==> self.spec_is_hybrid() && other.spec_is_hybrid(),
            count matches Some(n) ==> n == self.sorted_hashes().to_set().union(
                other.sorted_hashes().to_set(),
            ).len(),
    {
        proof {
            self.lemma_hybrid_wf();
            other.lemma_hybrid_wf();
            lemma_hybrid_capacity(PRECISION as nat, BITS as nat);
        }
        match (&self.inner, &other.inner) {
            (Representation::Hashes(left), Representation::Hashes(right)) => {
                Some(unique_values_from_sorted_iterators(left.as_slice(), right.as_slice()))
            },
            _ => None,
        }
    }

    /// The register counter of the union of the two counters: register by
    /// register, the larger value of the registers that stand for what each
    /// has seen. A counter in hybrid mode takes part through a copy that is
    /// turned to registers; the counter itself stays as it is.
    pub fn union_counter(&self, other: &Self) -> (merged: HyperLogLog<PRECISION, BITS>)
        requires
            self.hybrid_wf(),
            other.hybrid_wf(),
        ensures
            merged.wf(),
            merged@ == union_of(self.registers_of(), other.registers_of()),
    {
        let left = self.to_counter();
        let right = other.to_counter();
        left.bitor(&right)
    }
}

/// Whether two lists hold the same digests in the same order.
fn same_list(first: &Vec<u64>, second: &Vec<u64>) -> (same: bool)
    ensures
        same <==> first@ == second@,
{
    if first.len() != second.len() {
        return false;
    }
    let mut index: usize = 0;
    while index < first.len()
        invariant
            first@.len() == second@.len(),
            index <= first@.len(),
            forall|k: int| 0 <= k < index ==> first@[k] == second@[k],
        decreases first@.len() - index,
    {
        if first[index] != second[index] {
            return false;
        }
        index += 1;
    }
    proof {
        assert(first@ =~= second@);
    }
    true
}

impl<const PRECISION: usize, const BITS: usize> PartialEq for Hybrid<PRECISION, BITS> {
    /// Whether the two counters are in the same mode and hold the same list
    /// or equal registers.
    fn eq(&self, other: &Self) -> (equal: bool) {
        match (&self.inner, &other.inner) {
            (Representation::Hashes(first), Representation::Hashes(second)) => same_list(
                first,
                second,
            ),
            (Representation::Registers(first), Representation::Registers(second)) => first.eq(
                second,
            ),
            _ => false,
        }
    }
}

impl<const PRECISION: usize, const BITS: usize> PartialEqSpecImpl for Hybrid<PRECISION, BITS> {
    open spec fn obeys_eq_spec() -> bool {
        true
    }

    /// Two counters are equal where their representations are.
    open spec fn eq_spec(&self, other: &Self) -> bool {
        self.same_representation(other)
    }
}

impl<const PRECISION: usize, const BITS: usize> Eq for Hybrid<PRECISION, BITS> {

}

impl<const PRECISION: usize, const BITS: usize> Hybrid<PRECISION, BITS> {
    /// The two counters are in the same mode and hold the same list or equal
    /// registers.
    pub closed spec fn same_representation(&self, other: &Self) -> bool {
        match (self.inner, other.inner) {
            (Representation::Hashes(first), Representation::Hashes(second)) => first@ == second@,
            (Representation::Registers(first), Representation::Registers(second)) => {
                first.same_fields(&second)
            },
            _ => false,
        }
    }

    /// Two counters are equal exactly where they are in the same mode and
    /// hold the same list or the same registers.
    pub proof fn lemma_equal(&self, other: &Self)
        requires
            self.hybrid_wf(),
            other.hybrid_wf(),
        ensures
            PartialEqSpec::eq_spec(self, other) <==> {
                &&& self.spec_is_hybrid() == other.spec_is_hybrid()
                &&& self.sorted_hashes() == other.sorted_hashes()
                &&& self.register_values() == other.register_values()
            },
    {
        match (self.inner, other.inner) {
            (Representation::Registers(first), Representation::Registers(second)) => {
                first.lemma_equal(&second);
            },
            _ => {},
        }
    }
}

impl<const PRECISION: usize, const BITS: usize> Clone for Hybrid<PRECISION, BITS> {
    /// A counter in the same mode, with the same list or the same registers.
    fn clone(&self) -> (copy: Self)
        ensures
            copy.hybrid_wf() == self.hybrid_wf(),
            copy.spec_is_hybrid() == self.spec_is_hybrid(),
            copy.sorted_hashes() == self.sorted_hashes(),
            copy.register_values() == self.register_values(),
            copy.same_representation(self),
    {
        match &self.inner {
            Representation::Hashes(list) => {
                let hashes = list.clone();
                assert(hashes@ =~= list@);
                Hybrid { inner: Representation::Hashes(hashes) }
            },
            Representation::Registers(counter) => Hybrid {
                inner: Representation::Registers(counter.clone()),
            },
        }
    }
}

impl<const PRECISION: usize, const BITS: usize> Hybridazable for Hybrid<PRECISION, BITS> {
    closed spec fn hybrid_wf(&self) -> bool {
        &&& parameter_error(PRECISION as nat, BITS as nat) is None
        &&& match self.inner {
            Representation::Hashes(list) => {
                &&& strictly_sorted(list@)
                &&& list@.len() <= hybrid_capacity(PRECISION as nat, BITS as nat)
            },
            Representation::Registers(counter) => counter.wf(),
        }
    }

    closed spec fn spec_is_hybrid(&self) -> bool {
        self.inner is Hashes
    }

    closed spec fn sorted_hashes(&self) -> Seq<u64> {
        match self.inner {
            Representation::Hashes(list) => list@,
            Representation::Registers(_) => Seq::empty(),
        }
    }

    closed spec fn register_values(&self) -> Seq<u32> {
        match self.inner {
            Representation::Hashes(_) => Seq::empty(),
            Representation::Registers(counter) => counter@,
        }
    }

    open spec fn spec_capacity(&self) -> nat {
        hybrid_capacity(PRECISION as nat, BITS as nat)
    }

    open spec fn spec_precision() -> nat {
        PRECISION as nat
    }

    open spec fn spec_bits() -> nat {
        BITS as nat
    }

    fn dehybridize(&mut self) {
        if self.is_hybrid() {
            let counter = self.to_counter();
            self.inner = Representation::Registers(counter);
        }
    }

    fn new_hybrid() -> (made: Result<Self, HyperLogLogError>) {
        if PRECISION < MIN_PRECISION || PRECISION > MAX_PRECISION {
            return Err(HyperLogLogError::UnsupportedPrecision);
        }
        if BITS < MIN_BITS || BITS > MAX_BITS {
            return Err(HyperLogLogError::UnsupportedBits);
        }
        Ok(Hybrid { inner: Representation::Hashes(Vec::new()) })
    }

    fn is_hybrid(&self) -> (hybrid: bool) {
        match &self.inner {
            Representation::Hashes(_) => true,
            Representation::Registers(_) => false,
        }
    }

    fn number_of_hashes(&self) -> (n: usize) {
        match &self.inner {
            Representation::Hashes(list) => list.len(),
            Representation::Registers(_) => 0,
        }
    }

    fn capacity(&self) -> (n: usize) {
        Self::list_capacity()
    }

    fn clear_words(&mut self) {
        self.inner = Representation::Hashes(Vec::new());
    }

    fn iter_sorted_hashes(&self) -> (hashes: Vec<u64>) {
        match &self.inner {
            Representation::Hashes(list) => {
                let hashes = list.clone();
                assert(hashes@ =~= list@);
                hashes
            },
            Representation::Registers(_) => Vec::new(),
        }
    }

    fn contains<T: Hash>(&self, element: &T) -> (found: bool) {
        let hash = digest(element);
        self.contains_hash(hash)
    }

    fn hybrid_insert<T: Hash>(&mut self, value: &T) -> (changed: bool) {
        let hash = digest(value);
        let changed = self.hybrid_insert_hash(hash);
        proof {
            assert(hybrid_insert_outcome(
                old(self).sorted_hashes(),
                old(self).spec_capacity(),
                Self::spec_precision(),
                Self::spec_bits(),
                hash,
                self.spec_is_hybrid(),
                self.sorted_hashes(),
                self.register_values(),
                changed,
            ));
        }
        changed
    }
}

} // verus!
