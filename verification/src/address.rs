//! Addresses: plain 64-bit integers, as on the 64-bit targets that the
//! heap layout is designed for.
use vstd::prelude::*;

verus! {

/// A memory address.
pub type Address = u64;

} // verus!
