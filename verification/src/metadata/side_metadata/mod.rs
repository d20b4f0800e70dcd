//! Side metadata: per-region metadata bits laid out in side tables.
use vstd::prelude::*;

pub mod spec;
pub mod helpers;
pub mod ranges;
pub mod grain;
pub mod access;
pub mod context;
pub mod layout;
pub mod sanity;
pub mod search;
pub mod bcopy;
pub mod scan;
pub mod zeroing;

verus! {

} // verus!
