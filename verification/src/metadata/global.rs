//! Metadata that is kept either in the object header or in a side table.
use vstd::prelude::*;
use vstd::arithmetic::power2::{pow2, lemma2_to64};
use crate::address::Address;
use crate::memory::MemoryRegion;
use super::header_metadata::{HeaderMetadataSpec, fits};
use super::side_metadata::access::{wrap_add, wrap_sub};
use super::side_metadata::spec::SideMetadataSpec;

verus! {

/// The memory that holds object metadata: the heap (object headers) and the
/// side metadata tables.
pub struct ObjectMemory {
    pub heap: MemoryRegion,
    pub side: MemoryRegion,
}

/// The specification of a metadata bit-set.
#[derive(Clone, Copy, Debug)]
pub enum MetadataSpec {
    /// In-header metadata uses bits from an object header.
    InHeader(HeaderMetadataSpec),
    /// On-side metadata uses a side table.
    OnSide(SideMetadataSpec),
}

impl MetadataSpec {
    /// The metadata of `object` can be accessed in `mem`.
    pub open spec fn accessible(self, mem: ObjectMemory, object: Address) -> bool {
        match self {
            MetadataSpec::InHeader(h) => h.accessible(mem.heap, object as int),
            MetadataSpec::OnSide(s) => s.accessible(mem.side, object as int),
        }
    }

    /// The number of bits of a metadata value.
    pub open spec fn width(self) -> nat {
        match self {
            MetadataSpec::InHeader(h) => h.num_of_bits as nat,
            MetadataSpec::OnSide(s) => s.num_bits_spec(),
        }
    }

    /// The metadata value of `object` in `mem`.
    pub open spec fn value_in(self, mem: ObjectMemory, object: Address) -> nat {
        match self {
            MetadataSpec::InHeader(h) => h.value_in(mem.heap, object as int),
            MetadataSpec::OnSide(s) => s.value_in(mem.side, object as int),
        }
    }

    /// The metadata value of `object` in `new` is `v`, and nothing else changed.
    pub open spec fn stored(self, old_mem: ObjectMemory, new_mem: ObjectMemory, object: Address, v: nat) -> bool {
        match self {
            MetadataSpec::InHeader(h) => h.stored(old_mem.heap, new_mem.heap, object as int, v) && new_mem.side == old_mem.side,
            MetadataSpec::OnSide(s) => s.stored(old_mem.side, new_mem.side, object as int, v) && new_mem.heap == old_mem.heap,
        }
    }

    /// The optional mask is allowed for this metadata.
    pub open spec fn mask_ok(self, mask: Option<u64>) -> bool {
        match self {
            MetadataSpec::InHeader(h) => h.mask_ok(mask),
            MetadataSpec::OnSide(_) => true,
        }
    }

    /// The value loaded with an optional mask.
    pub open spec fn loaded(self, mem: ObjectMemory, object: Address, mask: Option<u64>) -> nat {
        match self {
            MetadataSpec::InHeader(h) => HeaderMetadataSpec::masked(h.value_in(mem.heap, object as int), mask),
            MetadataSpec::OnSide(s) => s.value_in(mem.side, object as int),
        }
    }

    /// The value stored over `prev` with an optional mask.
    pub open spec fn merged(self, prev: nat, val: nat, mask: Option<u64>) -> nat {
        match self {
            MetadataSpec::InHeader(h) => HeaderMetadataSpec::merged(prev, val, mask),
            MetadataSpec::OnSide(_) => val,
        }
    }

    /// Is this metadata stored in the side table?
    pub fn is_on_side(&self) -> (r: bool)
        ensures
            r == (*self is OnSide),
    {
        matches!(self, MetadataSpec::OnSide(_))
    }

    /// Is this metadata stored in the object header?
    pub fn is_in_header(&self) -> (r: bool)
        ensures
            r == (*self is InHeader),
    {
        matches!(self, MetadataSpec::InHeader(_))
    }

    /// The side metadata spec of a metadata stored in the side table.
    pub fn extract_side_spec(&self) -> (r: &SideMetadataSpec)
        requires
            *self is OnSide,
        ensures
            *self == MetadataSpec::OnSide(*r),
    {
        match self {
            MetadataSpec::OnSide(spec) => spec,
            MetadataSpec::InHeader(_) => {
                proof {
                    assert(false);
                }
                unreached()
            },
        }
    }

    /// Non-atomic load of the metadata of `object`, with an optional mask (in-header metadata only).
    pub fn load(&self, mem: &ObjectMemory, object: Address, mask: Option<u64>) -> (r: u64)
        requires
            self.accessible(*mem, object),
            self.mask_ok(mask),
        ensures
            r == self.loaded(*mem, object, mask),
    {
        match self {
            MetadataSpec::OnSide(s) => s.load(&mem.side, object),
            MetadataSpec::InHeader(h) => h.load(&mem.heap, object, mask),
        }
    }

    /// Atomic load of the metadata of `object`, with an optional mask (in-header metadata only).
    pub fn load_atomic(&self, mem: &ObjectMemory, object: Address, mask: Option<u64>) -> (r: u64)
        requires
            self.accessible(*mem, object),
            self.mask_ok(mask),
        ensures
            r == self.loaded(*mem, object, mask),
    {
        match self {
            MetadataSpec::OnSide(s) => s.load_atomic(&mem.side, object),
            MetadataSpec::InHeader(h) => h.load_atomic(&mem.heap, object, mask),
        }
    }

    /// Non-atomic store of the metadata of `object`, with an optional mask (in-header metadata only).
    pub fn store(&self, mem: &mut ObjectMemory, object: Address, val: u64, mask: Option<u64>)
        requires
            self.accessible(*old(mem), object),
            self.mask_ok(mask),
            fits(val as nat, self.width()),
        ensures
            self.stored(*old(mem), *final(mem), object, self.merged(self.value_in(*old(mem), object), val as nat, mask)),
    {
        match self {
            MetadataSpec::OnSide(s) => s.store(&mut mem.side, object, val),
            MetadataSpec::InHeader(h) => h.store(&mut mem.heap, object, val, mask),
        }
    }

    /// Atomic store of the metadata of `object`, with an optional mask (in-header metadata only).
    pub fn store_atomic(&self, mem: &mut ObjectMemory, object: Address, val: u64, mask: Option<u64>)
        requires
            self.accessible(*old(mem), object),
            self.mask_ok(mask),
            fits(val as nat, self.width()),
        ensures
            self.stored(*old(mem), *final(mem), object, self.merged(self.value_in(*old(mem), object), val as nat, mask)),
    {
        match self {
            MetadataSpec::OnSide(s) => s.store_atomic(&mut mem.side, object, val),
            MetadataSpec::InHeader(h) => h.store_atomic(&mut mem.heap, object, val, mask),
        }
    }

    /// A compare-and-exchange of `old_val` by `new_val` on the metadata of `object` succeeds.
    pub open spec fn cas_succeeds(self, mem: ObjectMemory, object: Address, old_val: u64, new_val: u64, mask: Option<u64>) -> bool {
        match self {
            MetadataSpec::OnSide(s) => s.value_in(mem.side, object as int) == old_val,
            MetadataSpec::InHeader(h) => if h.num_of_bits < 8 {
                h.value_in(mem.heap, object as int) == old_val
            } else {
                let raw = h.raw_in(mem.heap, object as int);
                raw == HeaderMetadataSpec::cas_words(raw, old_val as nat, new_val as nat, mask).0
            },
        }
    }

    /// The metadata value after a successful compare-and-exchange.
    pub open spec fn cas_new_value(self, mem: ObjectMemory, object: Address, old_val: u64, new_val: u64, mask: Option<u64>) -> nat {
        match self {
            MetadataSpec::OnSide(_) => new_val as nat,
            MetadataSpec::InHeader(h) => if h.num_of_bits < 8 {
                new_val as nat
            } else {
                let raw = h.raw_in(mem.heap, object as int);
                HeaderMetadataSpec::cas_words(raw, old_val as nat, new_val as nat, mask).1
            },
        }
    }

    /// The value that a compare-and-exchange reports: the side metadata value,
    /// or the raw header byte or word that held the metadata.
    pub open spec fn cas_reported(self, mem: ObjectMemory, object: Address) -> u64 {
        match self {
            MetadataSpec::OnSide(s) => s.value_in(mem.side, object as int) as u64,
            MetadataSpec::InHeader(h) => h.raw_in(mem.heap, object as int) as u64,
        }
    }

    /// Replace the metadata value `old_val` of `object` with `new_val`. Succeeds
    /// exactly when the current value is `old_val` (for in-header metadata
    /// with a mask: when the bits in the mask are `old_val`).
    pub fn compare_exchange_metadata(&self, mem: &mut ObjectMemory, object: Address, old_val: u64, new_val: u64, mask: Option<u64>) -> (r: Result<u64, u64>)
        requires
            self.accessible(*old(mem), object),
            self.mask_ok(mask),
            fits(old_val as nat, self.width()),
            fits(new_val as nat, self.width()),
        ensures
            self.cas_succeeds(*old(mem), object, old_val, new_val, mask) ==> r == Ok::<u64, u64>(self.cas_reported(*old(mem), object))
                && self.stored(*old(mem), *final(mem), object, self.cas_new_value(*old(mem), object, old_val, new_val, mask)),
            !self.cas_succeeds(*old(mem), object, old_val, new_val, mask) ==> r == Err::<u64, u64>(self.cas_reported(*old(mem), object))
                && *final(mem) == *old(mem),
    {
        match self {
            MetadataSpec::OnSide(s) => s.compare_exchange_atomic(&mut mem.side, object, old_val, new_val),
            MetadataSpec::InHeader(h) => h.compare_exchange(&mut mem.heap, object, old_val, new_val, mask),
        }
    }

    /// `val` is a value of the type used to access this metadata.
    pub open spec fn operand_ok(self, val: u64) -> bool {
        match self {
            MetadataSpec::InHeader(h) => fits(val as nat, h.value_bits()),
            MetadataSpec::OnSide(s) => val < pow2(s.num_bits_spec()),
        }
    }

    /// `prev + val`, wrapped to the width of the metadata.
    pub open spec fn added(self, prev: nat, val: nat) -> nat {
        match self {
            MetadataSpec::InHeader(h) => if h.num_of_bits < 8 {
                (((prev + val) as int) % (pow2(h.num_of_bits as nat) as int)) as nat
            } else {
                wrap_add(prev, val, h.num_of_bits as nat)
            },
            MetadataSpec::OnSide(s) => wrap_add(prev, val, s.num_bits_spec()),
        }
    }

    /// `prev - val`, wrapped to the width of the metadata.
    pub open spec fn subtracted(self, prev: nat, val: nat) -> nat {
        match self {
            MetadataSpec::InHeader(h) => if h.num_of_bits < 8 {
                ((prev as int - val as int) % (pow2(h.num_of_bits as nat) as int)) as nat
            } else {
                wrap_sub(prev, val, h.num_of_bits as nat)
            },
            MetadataSpec::OnSide(s) => wrap_sub(prev, val, s.num_bits_spec()),
        }
    }

    /// `prev | val`, truncated to the width of the metadata.
    pub open spec fn ored(self, prev: u64, val: u64) -> nat {
        match self {
            MetadataSpec::InHeader(h) => ((prev | val) as nat) % pow2(h.num_of_bits as nat),
            MetadataSpec::OnSide(_) => (prev | val) as nat,
        }
    }

    /// Add `val` to the metadata of `object` (wrapping), and return the previous value.
    pub fn fetch_add_metadata(&self, mem: &mut ObjectMemory, object: Address, val: u64) -> (r: u64)
        requires
            self.accessible(*old(mem), object),
            self.operand_ok(val),
        ensures
            r == self.value_in(*old(mem), object),
            self.stored(*old(mem), *final(mem), object, self.added(r as nat, val as nat)),
    {
        match self {
            MetadataSpec::OnSide(s) => s.fetch_add_atomic(&mut mem.side, object, val),
            MetadataSpec::InHeader(h) => h.fetch_add(&mut mem.heap, object, val),
        }
    }

    /// Subtract `val` from the metadata of `object` (wrapping), and return the previous value.
    pub fn fetch_sub_metadata(&self, mem: &mut ObjectMemory, object: Address, val: u64) -> (r: u64)
        requires
            self.accessible(*old(mem), object),
            self.operand_ok(val),
        ensures
            r == self.value_in(*old(mem), object),
            self.stored(*old(mem), *final(mem), object, self.subtracted(r as nat, val as nat)),
    {
        match self {
            MetadataSpec::OnSide(s) => s.fetch_sub_atomic(&mut mem.side, object, val),
            MetadataSpec::InHeader(h) => h.fetch_sub(&mut mem.heap, object, val),
        }
    }

    /// Bitwise-and `val` into the metadata of `object`, and return the previous value.
    pub fn fetch_and_metadata(&self, mem: &mut ObjectMemory, object: Address, val: u64) -> (r: u64)
        requires
            self.accessible(*old(mem), object),
            self.operand_ok(val),
        ensures
            r == self.value_in(*old(mem), object),
            self.stored(*old(mem), *final(mem), object, (r & val) as nat),
    {
        match self {
            MetadataSpec::OnSide(s) => s.fetch_and_atomic(&mut mem.side, object, val),
            MetadataSpec::InHeader(h) => h.fetch_and(&mut mem.heap, object, val),
        }
    }

    /// Bitwise-or `val` into the metadata of `object`, and return the previous value.
    pub fn fetch_or_metadata(&self, mem: &mut ObjectMemory, object: Address, val: u64) -> (r: u64)
        requires
            self.accessible(*old(mem), object),
            self.operand_ok(val),
        ensures
            r == self.value_in(*old(mem), object),
            self.stored(*old(mem), *final(mem), object, self.ored(r, val)),
    {
        match self {
            MetadataSpec::OnSide(s) => s.fetch_or_atomic(&mut mem.side, object, val),
            MetadataSpec::InHeader(h) => h.fetch_or(&mut mem.heap, object, val),
        }
    }

    /// Apply `f` to the metadata of `object`: store its result if it gives one
    /// (`Ok` with the previous value), else leave the metadata alone (`Err`
    /// with the current value).
    pub fn fetch_update_metadata<F: Fn(u64) -> Option<u64>>(&self, mem: &mut ObjectMemory, object: Address, f: F) -> (r: Result<u64, u64>)
        requires
            self.accessible(*old(mem), object),
            forall|x: u64| call_requires(f, (x,)),
            forall|x: u64, o: Option<u64>| call_ensures(f, (x,), o) && o is Some ==> self.operand_ok(o->0),
        ensures
            match r {
                Ok(v) => v == self.value_in(*old(mem), object)
                    && exists|n: u64| call_ensures(f, (v,), Some(n))
                        && self.stored(*old(mem), *final(mem), object, (n as nat) % pow2(self.width())),
                Err(v) => v == self.value_in(*old(mem), object)
                    && call_ensures(f, (v,), None) && *final(mem) == *old(mem),
            },
    {
        match self {
            MetadataSpec::OnSide(s) => {
                let r = s.fetch_update_atomic(&mut mem.side, object, f);
                proof {
                    if let Ok(v) = r {
                        let n = choose|n: u64| call_ensures(f, (v,), Some(n))
                            && s.stored(old(mem).side, mem.side, object as int, n as nat);
                        vstd::arithmetic::div_mod::lemma_small_mod(n as nat, pow2(s.num_bits_spec()));
                    }
                }
                r
            },
            MetadataSpec::InHeader(h) => h.fetch_update(&mut mem.heap, object, f),
        }
    }

    /// Metadata that can be accessed is at least one bit wide, so 0 and 1 are values of it.
    pub proof fn lemma_bit_values(self, mem: ObjectMemory, object: Address)
        requires
            self.accessible(mem, object),
        ensures
            self.width() >= 1,
            fits(0, self.width()),
            fits(1, self.width()),
            self.operand_ok(0),
            self.operand_ok(1),
    {
        vstd::arithmetic::power2::lemma2_to64();
        match self {
            MetadataSpec::InHeader(h) => {
                vstd::arithmetic::power2::lemma_pow2_strictly_increases(0, self.width());
                vstd::arithmetic::power2::lemma_pow2_strictly_increases(0, h.value_bits());
            },
            MetadataSpec::OnSide(s) => {
                vstd::arithmetic::power2::lemma_pow2_pos(s.log_num_of_bits as nat);
                vstd::arithmetic::power2::lemma_pow2_strictly_increases(0, self.width());
            },
        }
    }

    /// The metadata value of an accessible object fits in the metadata's width.
    pub proof fn lemma_value_fits(self, mem: ObjectMemory, object: Address)
        requires
            self.accessible(mem, object),
        ensures
            fits(self.value_in(mem, object), self.width()),
    {
        match self {
            MetadataSpec::InHeader(h) => h.lemma_value_fits(mem.heap, object as int),
            MetadataSpec::OnSide(s) => s.lemma_value_bound(mem.side, object as int),
        }
    }

    /// Storing a metadata value keeps the metadata of every object accessible.
    pub proof fn lemma_stored_keeps_access(self, old_mem: ObjectMemory, new_mem: ObjectMemory, object: Address, v: nat)
        requires
            self.accessible(old_mem, object),
            self.stored(old_mem, new_mem, object, v),
        ensures
            forall|o: Address| self.accessible(old_mem, o) ==> #[trigger] self.accessible(new_mem, o),
    {
    }

    /// Storing a value of another metadata keeps this metadata of every object accessible.
    pub proof fn lemma_other_store_keeps_access(self, other: MetadataSpec, old_mem: ObjectMemory, new_mem: ObjectMemory, object: Address, v: nat)
        requires
            other.stored(old_mem, new_mem, object, v),
        ensures
            forall|o: Address| self.accessible(old_mem, o) ==> #[trigger] self.accessible(new_mem, o),
    {
    }

    /// Without a mask, a compare-and-exchange succeeds exactly when the
    /// metadata value is the expected one, and then stores the new value.
    pub proof fn lemma_cas_without_mask(self, mem: ObjectMemory, object: Address, old_val: u64, new_val: u64)
        ensures
            self.cas_succeeds(mem, object, old_val, new_val, None) <==> self.value_in(mem, object) == old_val,
            self.cas_new_value(mem, object, old_val, new_val, None) == new_val as nat,
    {
    }
}

/// The side metadata specs among `specs`, in order.
pub fn extract_side_metadata(specs: &[MetadataSpec]) -> (r: Vec<SideMetadataSpec>)
    ensures
        r@ == specs@.filter(|s: MetadataSpec| s is OnSide).map_values(|s: MetadataSpec| s->OnSide_0),
{
    let mut side_specs: Vec<SideMetadataSpec> = Vec::new();
    let mut i: usize = 0;
    while i < specs.len()
        invariant
            i <= specs@.len(),
            side_specs@ == specs@.subrange(0, i as int).filter(|s: MetadataSpec| s is OnSide).map_values(|s: MetadataSpec| s->OnSide_0),
        decreases specs@.len() - i,
    {
        proof {
            reveal(Seq::filter);
            assert(specs@.subrange(0, i + 1).drop_last() =~= specs@.subrange(0, i as int));
        }
        if let MetadataSpec::OnSide(s) = specs[i] {
            side_specs.push(s);
        }
        proof {
            assert(side_specs@ =~= specs@.subrange(0, i + 1).filter(|s: MetadataSpec| s is OnSide).map_values(|s: MetadataSpec| s->OnSide_0));
        }
        i = i + 1;
    }
    proof {
        assert(specs@.subrange(0, specs@.len() as int) =~= specs@);
    }
    side_specs
}

} // verus!
