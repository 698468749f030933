//! A static, read-mostly hash table for byte-string keys, built once from a
//! known key set and queried repeatedly thereafter.
//!
//! The table uses open addressing with linear probing; all key bytes live in
//! one contiguous buffer. Two adapters share the engine: [`HashMap`], which
//! stores one value per key, and [`HashSet`], which stores keys only.

use vstd::prelude::*;

mod hashing;
mod table;

pub use map::HashMap;
pub use set::HashSet;
pub use table::{lemma_capacity_examples, lemma_capacity_minimal, pot_above_from, spec_capacity};

pub mod map;
pub mod set;

verus! {

/// Why a construction attempt was rejected.
#[derive(Clone, Copy, Debug, PartialEq, Eq, Structural)]
pub enum BuildError {
    /// Construction was attempted with zero keys; the capacity computation is
    /// undefined at zero, so empty input is rejected up front.
    EmptyInput,
    /// Two input keys have identical bytes.
    DuplicateKey,
}

} // verus!
