//! Space-efficient approximate distinct counting with ExaLogLog, the algorithm of
//! Otmar Ertl, "ExaLogLog: Space-Efficient and Practical Approximate Distinct
//! Counting up to the Exa-Scale" (arXiv:2402.13726).
//!
//! [`ExaLogLog`] packs registers of 28 bits and takes the least memory;
//! [`ExaLogLogFast`] gives each register a word of 32 bits, which is faster and can
//! be updated concurrently. A new sketch is sparse: it keeps a list of hash tokens
//! until that list would take more memory than the registers.
//!
//! What a sketch stands for is a [`state::SketchView`]; every operation says how it
//! changes that. Other modules state what follows for sketches as a whole:
//!
//! - [`laws`]: a sketch depends only on the set of inserted hashes;
//! - [`joining`] and [`parallel`]: merging joins these sets, in any order;
//! - [`reduction`]: reducing the precision loses nothing else;
//! - [`modes`]: when a sketch is sparse, empty, or followed by the martingale estimator;
//! - [`probability`] and [`counting`]: weights are probabilities, and count hashes;
//! - [`observed`]: the likelihood counts every observation exactly once;
//! - [`byte_form`]: the byte form, byte for byte.
//!
//! The library computes exact integers: the coefficients of the likelihood
//! ([`likelihood::Likelihood`]) and scaled probabilities. To turn these into an
//! estimate takes floating point, which is left to the caller.

use vstd::prelude::*;

pub mod algebra;
pub mod batch;
pub mod byte_form;
pub mod bytes;
pub mod codec;
pub mod counting;
pub mod default_hash;
pub mod error;
pub mod fast;
pub mod hashing;
pub mod joining;
pub mod laws;
pub mod likelihood;
pub mod modes;
pub mod observed;
pub mod packed;
pub mod parallel;
pub mod probability;
pub mod reduction;
pub mod register;
pub mod shared;
mod sketch;
pub mod state;
pub mod storage;
pub mod text;
pub mod tokens;

pub use error::DeserializeError;
pub use error::MergeError;
pub use fast::ExaLogLogFast;
pub use packed::ExaLogLog;
pub use parallel::merge_many_par;
pub use parallel::merge_many_par_fast;

verus! {

/// `t` parameter of the update value distribution: the number of low hash bits that
/// refine an update value.
pub const T: u32 = 2;

/// Minimum supported precision parameter `p`.
pub const MIN_P: u32 = 3;

/// Maximum supported precision parameter `p`.
pub const MAX_P: u32 = 26;

} // verus!
