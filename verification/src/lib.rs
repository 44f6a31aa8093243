//! Maximal-product contiguous subranges of sequences of non-negative numbers.
//!
//! Two linear-time searches are provided: `max_prod_fast_int` for whole
//! numbers, which never multiplies across a zero, and `max_prod_fast_real`
//! for non-negative quantities in general, which compresses the sequence
//! into runs of elements below one and runs of elements at or above one and
//! folds the runs from the right. Two exhaustive searches define what the
//! answer is: the first range, in the order by start and then by end, whose
//! product no other range exceeds.
//!
//! All of them are stated over the real numbers that the elements stand for.
//! The elements themselves are of any type with the capabilities of
//! `Scalar`: the unsigned machine integers, whose products may wrap around,
//! and `Ratio`, an exact fraction of unbounded size.
pub mod scalar;
pub mod span;
pub mod oracle;
pub mod scanner;
pub mod runs;
pub mod reducer;
pub mod optimal;
pub mod unsigned;
pub mod bignum;
pub mod ratio;

pub use crate::oracle::{max_prod_brute_force, max_prod_brute_force_improved, prod};
pub use crate::ratio::Ratio;
pub use crate::reducer::max_prod_fast_real;
pub use crate::runs::{compress_dual, is_compressible};
pub use crate::scalar::{Natural, Scalar};
pub use crate::scanner::max_prod_fast_int;
