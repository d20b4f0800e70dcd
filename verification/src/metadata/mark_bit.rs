//! The local mark bit, and `MarkState`, which hides the difference between a
//! side mark bit (1 always means marked; the bits are bulk-zeroed between
//! collections) and an in-header mark bit (the marked value flips every
//! collection, so live objects need no reset).
use vstd::prelude::*;
use crate::address::Address;
use crate::memory::MemoryRegion;
use super::global::{MetadataSpec, ObjectMemory};
use super::side_metadata::access::bits_zeroed;

verus! {

/// The metadata spec of the local mark bit that a VM binding chose.
#[derive(Clone, Copy, Debug)]
pub struct VMLocalMarkBitSpec(pub MetadataSpec);

impl VMLocalMarkBitSpec {
    /// The underlying metadata spec.
    pub fn as_spec(&self) -> (r: &MetadataSpec)
        ensures
            *r == self.0,
    {
        &self.0
    }

    /// Set the mark bit of `object` to 1.
    pub fn mark(&self, mem: &mut ObjectMemory, object: Address)
        requires
            self.0.accessible(*old(mem), object),
        ensures
            self.0.stored(*old(mem), *final(mem), object, 1),
    {
        proof {
            self.0.lemma_bit_values(*mem, object);
        }
        self.0.store_atomic(mem, object, 1, None);
    }

    /// The mark bit of `object` is 1.
    pub fn is_marked(&self, mem: &ObjectMemory, object: Address) -> (r: bool)
        requires
            self.0.accessible(*mem, object),
        ensures
            r == (self.0.value_in(*mem, object) == 1),
    {
        self.0.load_atomic(mem, object, None) == 1
    }
}

/// The marked state of a policy's objects.
pub struct MarkState {
    /// The mark bit value that means "marked": always 1 for a side mark bit;
    /// flipped every collection for an in-header mark bit.
    state: u8,
}

impl MarkState {
    /// The mark bit value that means "marked".
    pub closed spec fn marked_value(self) -> u8 {
        self.state
    }

    /// The marked value is 0 or 1.
    pub open spec fn wf(self) -> bool {
        self.marked_value() <= 1
    }

    /// The mark bit value that means "unmarked".
    pub open spec fn unmarked_value(self) -> u8 {
        self.marked_value() ^ 1u8
    }

    /// A new mark state: 1 means marked.
    pub fn new() -> (r: Self)
        ensures
            r.marked_value() == 1,
            r.wf(),
    {
        MarkState { state: 1 }
    }

    /// The mark bit value that means "unmarked".
    fn unmarked_state(&self) -> (r: u8)
        ensures
            r == self.unmarked_value(),
    {
        self.state ^ 1
    }

    /// The object is marked: its mark bit holds the marked value.
    pub fn is_marked(&self, spec: &VMLocalMarkBitSpec, mem: &ObjectMemory, object: Address) -> (r: bool)
        requires
            spec.0.accessible(*mem, object),
        ensures
            r == (spec.0.value_in(*mem, object) == self.marked_value()),
    {
        let state = spec.0.load_atomic(mem, object, None);
        state == self.state as u64
    }

    /// Mark the object unconditionally.
    pub fn mark(&self, spec: &VMLocalMarkBitSpec, mem: &mut ObjectMemory, object: Address)
        requires
            self.wf(),
            spec.0.accessible(*old(mem), object),
        ensures
            spec.0.stored(*old(mem), *final(mem), object, self.marked_value() as nat),
    {
        proof {
            spec.0.lemma_bit_values(*mem, object);
        }
        spec.0.store_atomic(mem, object, self.state as u64, None);
    }

    /// Mark the object if it is not marked yet. Returns whether this call marked it.
    pub fn test_and_mark(&self, spec: &VMLocalMarkBitSpec, mem: &mut ObjectMemory, object: Address) -> (r: bool)
        requires
            self.wf(),
            spec.0.accessible(*old(mem), object),
        ensures
            r == (spec.0.value_in(*old(mem), object) != self.marked_value()),
            r ==> spec.0.stored(*old(mem), *final(mem), object, self.marked_value() as nat),
            !r ==> *final(mem) == *old(mem),
    {
        proof {
            spec.0.lemma_bit_values(*mem, object);
        }
        let old_value = spec.0.load_atomic(mem, object, None);
        if old_value == self.state as u64 {
            return false;
        }
        proof {
            spec.0.lemma_cas_without_mask(*mem, object, old_value, self.state as u64);
            spec.0.lemma_value_fits(*mem, object);
        }
        let res = spec.0.compare_exchange_metadata(mem, object, old_value, self.state as u64, None);
        res.is_ok()
    }

    /// Called when an object is initialized: an in-header mark bit is set to
    /// the unmarked value (a side mark bit was bulk-zeroed already).
    pub fn on_object_metadata_initialization(&self, spec: &VMLocalMarkBitSpec, mem: &mut ObjectMemory, object: Address)
        requires
            self.wf(),
            spec.0.accessible(*old(mem), object),
        ensures
            spec.0 is InHeader ==> spec.0.stored(*old(mem), *final(mem), object, self.unmarked_value() as nat),
            spec.0 is OnSide ==> *final(mem) == *old(mem),
    {
        if spec.0.is_in_header() {
            proof {
                spec.0.lemma_bit_values(*mem, object);
                assert(self.marked_value() == 0 || self.marked_value() == 1);
                assert(0u8 ^ 1u8 == 1u8 && 1u8 ^ 1u8 == 0u8) by (bit_vector);
            }
            spec.0.store_atomic(mem, object, self.unmarked_state() as u64, None);
        }
    }

    /// Called in the global preparation of a space: nothing to do.
    pub fn on_global_prepare(&mut self)
        ensures
            *final(self) == *old(self),
    {
    }

    /// Called when a space resets a block of memory: a side mark bit is bulk-zeroed
    /// for `[start, start + size)`.
    pub fn on_block_reset(&self, spec: &VMLocalMarkBitSpec, side: &mut MemoryRegion, start: Address, size: u64)
        requires
            spec.0 matches MetadataSpec::OnSide(s) ==> s.bzero_ok(*old(side), start as int, size as int),
        ensures
            spec.0 is InHeader ==> *final(side) == *old(side),
            spec.0 matches MetadataSpec::OnSide(s) ==> {
                &&& size == 0 ==> *final(side) == *old(side)
                &&& size > 0 ==> bits_zeroed(*old(side), *final(side), s.meta_addr_spec(start as int), s.lshift_spec(start as int) as u8,
                    s.meta_addr_spec(start + size), s.lshift_spec(start + size) as u8)
            },
    {
        if let MetadataSpec::OnSide(s) = spec.as_spec() {
            s.bzero_metadata(side, start, size);
        }
    }

    /// Called in the global release of a space: with an in-header mark bit,
    /// the marked value flips, so every object marked in this collection
    /// reads as unmarked in the next.
    pub fn on_global_release(&mut self, spec: &VMLocalMarkBitSpec)
        requires
            old(self).wf(),
        ensures
            final(self).wf(),
            spec.0 is InHeader ==> final(self).marked_value() == old(self).unmarked_value(),
            spec.0 is OnSide ==> *final(self) == *old(self),
    {
        if spec.0.is_in_header() {
            proof {
                assert(self.state == 0 || self.state == 1);
                assert(0u8 ^ 1u8 == 1u8 && 1u8 ^ 1u8 == 0u8) by (bit_vector);
            }
            self.state = self.unmarked_state();
        }
    }
}

/// With an in-header mark bit, a global release turns the marked value into
/// the unmarked one and back: an object marked before the release is
/// unmarked after it, an object initialized unmarked before it reads as
/// marked, and two releases restore the state.
pub proof fn lemma_release_flips(before: MarkState, after: MarkState, again: MarkState, v: u8)
    requires
        before.wf(),
        after.wf(),
        after.marked_value() == before.unmarked_value(),
        again.marked_value() == after.unmarked_value(),
    ensures
        v == before.marked_value() ==> v != after.marked_value(),
        v == before.unmarked_value() ==> v == after.marked_value(),
        after.unmarked_value() == before.marked_value(),
        again.marked_value() == before.marked_value(),
{
    let b = before.marked_value();
    assert(b <= 1u8 ==> (b ^ 1u8) ^ 1u8 == b && b ^ 1u8 != b) by (bit_vector);
}

} // verus!
