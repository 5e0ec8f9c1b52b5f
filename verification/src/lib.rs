//! Probabilistic cardinality estimation with HyperLogLog counters.
//!
//! A counter keeps one small register for each bucket of the hash space. An
//! element is hashed; the top bits of its digest pick a register, and the
//! register keeps the largest rank seen, which is one more than the number of
//! leading zeros of the rest of the digest. From the registers the number of
//! distinct elements can be estimated, and two counters are merged register by
//! register.
//!
//! - [`array`] stores registers of any width from 1 to 64 bits in 64-bit
//!   words, padded to whole registers in a word or packed across words.
//! - [`hyperloglog`] is the counter: insertion, union, intersection, and the
//!   number of registers that are still zero.
//! - [`hybrid`] is a counter that keeps the digests themselves, and is exact,
//!   until they would take more room than the registers.
//! - [`variable_word`] and [`bits`] name register widths by types.
//! - [`bitfield`] holds the facts about fields of bits in one word on which
//!   the array rests.
pub mod array;
pub mod bitfield;
pub mod bits;
mod hashing;
pub mod hybrid;
pub mod hyperloglog;
pub mod prelude;
pub mod variable_word;
