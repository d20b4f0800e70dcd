//! The global log bit: 1 means that an object is unlogged, 0 that it was logged.
use vstd::prelude::*;
use crate::address::Address;
use crate::memory::MemoryRegion;
use super::global::{MetadataSpec, ObjectMemory};
use super::side_metadata::helpers::address_to_meta_address;
use super::side_metadata::access::bits_zeroed;
use vstd::arithmetic::power2::pow2;

verus! {

/// The metadata spec of the global log bit that a VM binding chose.
#[derive(Clone, Copy, Debug)]
pub struct VMGlobalLogBitSpec(pub MetadataSpec);

/// The side metadata byte of `object` is `0xff` in `new`, and no other byte changed.
pub open spec fn byte_set(old_mem: MemoryRegion, new_mem: MemoryRegion, m: int) -> bool {
    &&& new_mem.start_spec() == old_mem.start_spec()
    &&& new_mem.wf() == old_mem.wf()
    &&& new_mem.bytes_spec() == old_mem.bytes_spec().update(m - old_mem.start_spec(), 0xffu8)
}

impl VMGlobalLogBitSpec {
    /// The underlying metadata spec.
    pub fn as_spec(&self) -> (r: &MetadataSpec)
        ensures
            *r == self.0,
    {
        &self.0
    }

    /// Clear the log bit of `object`: it is now logged (0).
    pub fn clear(&self, mem: &mut ObjectMemory, object: Address)
        requires
            self.0.accessible(*old(mem), object),
        ensures
            self.0.stored(*old(mem), *final(mem), object, 0),
    {
        proof {
            self.0.lemma_bit_values(*mem, object);
        }
        self.0.store_atomic(mem, object, 0, None);
    }

    /// Set the log bit of `object`: it is now unlogged (1).
    pub fn mark_as_unlogged(&self, mem: &mut ObjectMemory, object: Address)
        requires
            self.0.accessible(*old(mem), object),
        ensures
            self.0.stored(*old(mem), *final(mem), object, 1),
    {
        proof {
            self.0.lemma_bit_values(*mem, object);
        }
        self.0.store_atomic(mem, object, 1, None);
    }

    /// Mark `object` as unlogged; with a side log bit, set its whole metadata
    /// byte, which also unlogs the objects that share that byte.
    pub fn mark_byte_as_unlogged(&self, mem: &mut ObjectMemory, object: Address)
        requires
            self.0.accessible(*old(mem), object),
        ensures
            match self.0 {
                MetadataSpec::InHeader(_) => self.0.stored(*old(mem), *final(mem), object, 1),
                MetadataSpec::OnSide(s) => byte_set(old(mem).side, final(mem).side, s.meta_addr_spec(object as int))
                    && final(mem).heap == old(mem).heap,
            },
    {
        match self.as_spec() {
            MetadataSpec::InHeader(_) => self.mark_as_unlogged(mem, object),
            MetadataSpec::OnSide(spec) => {
                let m = address_to_meta_address(spec, object);
                proof {
                    if spec.log_num_of_bits >= 3 {
                        vstd::arithmetic::power2::lemma_pow2_pos((spec.log_num_of_bits - 3) as nat);
                    }
                }
                mem.side.store_u8(m, 0xff);
            },
        }
    }

    /// The log bit of `object` says that it is unlogged (1).
    pub fn is_unlogged(&self, mem: &ObjectMemory, object: Address) -> (r: bool)
        requires
            self.0.accessible(*mem, object),
        ensures
            r == (self.0.value_in(*mem, object) == 1),
    {
        self.0.load_atomic(mem, object, None) == 1
    }
}

/// What to do to the unlog bits of a range of memory.
#[derive(Clone, Copy, Debug, PartialEq, Eq, Structural)]
pub enum UnlogBitsOperation {
    /// Nothing.
    NoOp,
    /// Set all of them.
    BulkSet,
    /// Clear all of them.
    BulkClear,
}

impl UnlogBitsOperation {
    /// Carry out the operation on the unlog bits (`log_bit`, kept in `side`
    /// when on the side) of `[start, start + size)`; in-header log bits
    /// cannot be changed in bulk, and are left alone.
    pub fn execute(&self, log_bit: &VMGlobalLogBitSpec, side: &mut MemoryRegion, start: Address, size: u64)
        requires
            log_bit.0 matches MetadataSpec::OnSide(s) ==> match *self {
                UnlogBitsOperation::NoOp => true,
                UnlogBitsOperation::BulkSet => {
                    &&& s.wf()
                    &&& start + size <= u64::MAX
                    &&& forall|a: int| #![trigger s.accessible(*old(side), a)]
                        s.region_start(start as int) <= a < s.region_start(start + size) ==> s.accessible(*old(side), a)
                },
                UnlogBitsOperation::BulkClear => s.bzero_ok(*old(side), start as int, size as int),
            },
        ensures
            (log_bit.0 is InHeader || *self == UnlogBitsOperation::NoOp) ==> *final(side) == *old(side),
            log_bit.0 matches MetadataSpec::OnSide(s) ==> match *self {
                UnlogBitsOperation::NoOp => true,
                UnlogBitsOperation::BulkSet => {
                    &&& forall|a: int| #![trigger s.value_in(*final(side), a)]
                        s.region_start(start as int) <= a < s.region_start(start + size)
                        ==> s.value_in(*final(side), a) == pow2(s.num_bits_spec()) - 1
                    &&& forall|a: int| #![trigger s.value_in(*final(side), a)]
                        0 <= a && s.accessible(*old(side), a) && !(s.region_start(start as int) <= a < s.region_start(start + size))
                        ==> s.value_in(*final(side), a) == s.value_in(*old(side), a)
                },
                UnlogBitsOperation::BulkClear => {
                    &&& size == 0 ==> *final(side) == *old(side)
                    &&& size > 0 ==> bits_zeroed(*old(side), *final(side), s.meta_addr_spec(start as int),
                        s.lshift_spec(start as int) as u8, s.meta_addr_spec(start + size), s.lshift_spec(start + size) as u8)
                },
            },
    {
        if let MetadataSpec::OnSide(s) = log_bit.as_spec() {
            match self {
                UnlogBitsOperation::NoOp => {},
                UnlogBitsOperation::BulkSet => s.bset_metadata(side, start, size),
                UnlogBitsOperation::BulkClear => s.bzero_metadata(side, start, size),
            }
        }
    }
}

} // verus!
