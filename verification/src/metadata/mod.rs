//! Metadata: side-table metadata and in-header metadata.
use vstd::prelude::*;

pub mod side_metadata;
pub mod header_metadata;
pub mod global;
pub mod mark_bit;
pub mod log_bit;
pub mod nursery_bit;
pub mod pin_bit;
pub mod sanity;
pub mod vo_bit;
pub mod metadata_val_traits;

verus! {

} // verus!
