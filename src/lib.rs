//! Loquat signatures: a keyed Legendre predicate over the field of integers
//! modulo the Mersenne prime 2^127 - 1, bound to a message by a two-leaf
//! Merkle commitment, with ring and aggregate variants.
use vstd::prelude::*;

pub mod crypto;
pub mod signature;
pub mod utils;

verus! {

} // verus!
