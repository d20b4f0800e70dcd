//! The local nursery bit: 0 means that an object is in the nursery, 1 that it is mature.
use vstd::prelude::*;
use crate::address::Address;
use super::global::{MetadataSpec, ObjectMemory};

verus! {

/// The metadata spec of the local nursery bit that a VM binding chose.
#[derive(Clone, Copy, Debug)]
pub struct VMLocalNurseryBitSpec(pub MetadataSpec);

impl VMLocalNurseryBitSpec {
    /// The underlying metadata spec.
    pub fn as_spec(&self) -> (r: &MetadataSpec)
        ensures
            *r == self.0,
    {
        &self.0
    }

    /// The object is in the nursery: its bit is 0.
    pub fn is_nursery(&self, mem: &ObjectMemory, object: Address) -> (r: bool)
        requires
            self.0.accessible(*mem, object),
        ensures
            r == (self.0.value_in(*mem, object) == 0),
    {
        self.0.load_atomic(mem, object, None) == 0
    }

    /// Put the object in the nursery: its bit becomes 0.
    pub fn set_nursery(&self, mem: &mut ObjectMemory, object: Address)
        requires
            self.0.accessible(*old(mem), object),
        ensures
            self.0.stored(*old(mem), *final(mem), object, 0),
    {
        proof {
            self.0.lemma_bit_values(*mem, object);
        }
        self.0.store_atomic(mem, object, 0, None)
    }

    /// Make the object mature: its bit becomes 1.
    pub fn set_mature(&self, mem: &mut ObjectMemory, object: Address)
        requires
            self.0.accessible(*old(mem), object),
        ensures
            self.0.stored(*old(mem), *final(mem), object, 1),
    {
        proof {
            self.0.lemma_bit_values(*mem, object);
        }
        self.0.store_atomic(mem, object, 1, None)
    }
}

} // verus!
