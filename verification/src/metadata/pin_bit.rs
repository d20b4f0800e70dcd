//! The local pinning bit: 1 means that an object is pinned and must not move.
use vstd::prelude::*;
use crate::address::Address;
use crate::memory::MemoryRegion;
use super::global::{MetadataSpec, ObjectMemory};
use super::side_metadata::access::bits_zeroed;

verus! {

/// The metadata spec of the local pinning bit that a VM binding chose.
#[derive(Clone, Copy, Debug)]
pub struct VMLocalPinningBitSpec(pub MetadataSpec);

impl VMLocalPinningBitSpec {
    /// The underlying metadata spec.
    pub fn as_spec(&self) -> (r: &MetadataSpec)
        ensures
            *r == self.0,
    {
        &self.0
    }

    /// Pin the object: set its bit from 0 to 1. Returns false, and changes
    /// nothing, if it was pinned already.
    pub fn pin_object(&self, mem: &mut ObjectMemory, object: Address) -> (r: bool)
        requires
            self.0.accessible(*old(mem), object),
        ensures
            r == (self.0.value_in(*old(mem), object) == 0),
            r ==> self.0.stored(*old(mem), *final(mem), object, 1),
            !r ==> *final(mem) == *old(mem),
    {
        proof {
            self.0.lemma_bit_values(*mem, object);
            self.0.lemma_cas_without_mask(*mem, object, 0, 1);
        }
        let res = self.0.compare_exchange_metadata(mem, object, 0, 1, None);
        res.is_ok()
    }

    /// Unpin the object: set its bit from 1 to 0. Returns false, and changes
    /// nothing, if it was not pinned.
    pub fn unpin_object(&self, mem: &mut ObjectMemory, object: Address) -> (r: bool)
        requires
            self.0.accessible(*old(mem), object),
        ensures
            r == (self.0.value_in(*old(mem), object) == 1),
            r ==> self.0.stored(*old(mem), *final(mem), object, 0),
            !r ==> *final(mem) == *old(mem),
    {
        proof {
            self.0.lemma_bit_values(*mem, object);
            self.0.lemma_cas_without_mask(*mem, object, 1, 0);
        }
        let res = self.0.compare_exchange_metadata(mem, object, 1, 0, None);
        res.is_ok()
    }

    /// The object is pinned: its bit is 1.
    pub fn is_object_pinned(&self, mem: &ObjectMemory, object: Address) -> (r: bool)
        requires
            self.0.accessible(*mem, object),
        ensures
            r == (self.0.value_in(*mem, object) == 1),
    {
        if self.0.load(mem, object, None) == 1 {
            return true;
        }
        false
    }
}

/// Bulk-zero the pinning bits of `[start, start + size)`; only a side pinning
/// bit can be bulk-zeroed.
pub fn bzero_pin_bit(spec: &VMLocalPinningBitSpec, side: &mut MemoryRegion, start: Address, size: u64)
    requires
        spec.0 is OnSide,
        spec.0->OnSide_0.bzero_ok(*old(side), start as int, size as int),
    ensures
        size == 0 ==> *final(side) == *old(side),
        size > 0 ==> {
            let s = spec.0->OnSide_0;
            bits_zeroed(*old(side), *final(side), s.meta_addr_spec(start as int), s.lshift_spec(start as int) as u8,
                s.meta_addr_spec(start + size), s.lshift_spec(start + size) as u8)
        },
{
    let s = spec.as_spec().extract_side_spec();
    s.bzero_metadata(side, start, size);
}

/// Pinning and unpinning undo each other: pinning an unpinned object and then
/// unpinning it restores its pinning bit to 0, and the second call succeeds.
pub proof fn lemma_pin_unpin(spec: VMLocalPinningBitSpec, m0: ObjectMemory, m1: ObjectMemory, m2: ObjectMemory, object: Address)
    requires
        spec.0.accessible(m0, object),
        spec.0.value_in(m0, object) == 0,
        spec.0.stored(m0, m1, object, 1),
        spec.0.stored(m1, m2, object, 0),
    ensures
        spec.0.accessible(m1, object),
        spec.0.value_in(m1, object) == 1,
        spec.0.value_in(m2, object) == 0,
{
    spec.0.lemma_stored_keeps_access(m0, m1, object, 1);
}

} // verus!
