//! Memory-management utilities of MMTk: metadata layout and access, bit-range
//! decomposition, reference counting, forwarding, reference processing and
//! supporting arithmetic, written against an explicit model of memory.
#![allow(unused_imports)]

use vstd::prelude::*;

pub mod constants;
pub mod conversions;

pub mod address;
pub mod memory;
pub mod metadata;
pub mod object_forwarding;
pub mod object_gc_stats;
pub mod rc;
pub mod reference_processor;
pub mod os;
pub mod str_parse;
pub mod options;
pub mod freelist;
pub mod raw_memory_freelist;
pub mod queue;
pub mod rust_util;
pub mod ref_scan_policy;
pub mod object_enum;
