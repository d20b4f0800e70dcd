//! Constants shared by the utilities (64-bit target; addresses and sizes are `u64`).
use vstd::prelude::*;

verus! {

/// log2 of the number of bits in a byte.
pub const LOG_BITS_IN_BYTE: u64 = 3;
/// The number of bits in a byte.
pub const BITS_IN_BYTE: u64 = 8;
/// log2 of the number of bytes in a page.
pub const LOG_BYTES_IN_PAGE: u64 = 12;
/// The number of bytes in a page.
pub const BYTES_IN_PAGE: u64 = 4096;
/// log2 of the number of bits in a machine word.
pub const LOG_BITS_IN_WORD: u64 = 6;
/// The number of bits in a machine word.
pub const BITS_IN_WORD: u64 = 64;
/// log2 of the number of bytes in an address.
pub const LOG_BYTES_IN_ADDRESS: u64 = 3;
/// The number of bytes in an address.
pub const BYTES_IN_ADDRESS: u64 = 8;
/// log2 of the number of bits in an address.
pub const LOG_BITS_IN_ADDRESS: u64 = 6;
/// log2 of the number of bits in an `i32`.
pub const LOG_BITS_IN_INT: u64 = 5;
/// log2 of the number of bytes in a chunk.
pub const LOG_BYTES_IN_CHUNK: u64 = 22;
/// The number of bytes in a chunk.
pub const BYTES_IN_CHUNK: u64 = 4194304;
/// log2 of the size of the address space that the heap layout uses.
pub const LOG_ARCH_ADDRESS_SPACE: u64 = 47;
/// log2 of the minimum object size in bytes.
pub const LOG_MIN_OBJECT_SIZE: u64 = 3;
/// log2 of the number of bytes in a megabyte.
pub const LOG_BYTES_IN_MBYTE: u64 = 20;
/// The address of the global side metadata when it is laid out at a fixed
/// base on a 64-bit target.
pub const GLOBAL_SIDE_METADATA_BASE_ADDRESS: u64 = 0x0000_0600_0000_0000;
/// The address of the local side metadata when it is laid out at a fixed base
/// on a 64-bit target: half the address space after the global side metadata.
pub const LOCAL_SIDE_METADATA_BASE_ADDRESS: u64 = 0x0000_4600_0000_0000;
/// The default stress factor: effectively never triggers a stress collection.
pub const DEFAULT_STRESS_FACTOR: u64 = 18446744073709551614;

} // verus!
