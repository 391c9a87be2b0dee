//! Proof-of-solvency toolkit: a KZG-style polynomial commitment engine over
//! the BN254 scalar field, a witness layout for per-user inclusion and global
//! sum-consistency proofs, and a Merkle sum tree as an alternative
//! hash-based vector commitment.

use vstd::prelude::*;

pub mod errors;
pub mod field;
pub mod kzg;
pub mod merkle;
pub mod poly;
pub mod protocol;
pub mod witness;

verus! {

} // verus!
