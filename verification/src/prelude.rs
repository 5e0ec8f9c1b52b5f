//! The items that most users of the counters need, in one place.
pub use crate::array::{Array, ArrayError};
pub use crate::bits::{Bits, Bits1, Bits2, Bits3, Bits4, Bits5, Bits6, Bits7, Bits8};
pub use crate::hybrid::{unique_values_from_sorted_iterators, Hybrid, Hybridazable};
pub use crate::hyperloglog::{HyperLogLog, HyperLogLogError, RegisterIter};
pub use crate::variable_word::{u24, u40, u48, u56, NarrowingError, VariableWord};
