//! Forwarding of objects by copying collectors: the forwarding bits of an
//! object go from "not forwarded" to "being forwarded" (won by one thread)
//! to "forwarded" (with the forwarding pointer written), or back to "not
//! forwarded" when the winner reverts.
use vstd::prelude::*;
use vstd::arithmetic::power2::pow2;
use crate::address::Address;
use crate::metadata::global::{MetadataSpec, ObjectMemory};
use crate::metadata::header_metadata::fits;

verus! {

/// The forwarding bits of an object that no thread has started to forward.
pub const FORWARDING_NOT_TRIGGERED_YET: u8 = 0b00;
/// The forwarding bits of an object that a thread is forwarding.
pub const BEING_FORWARDED: u8 = 0b10;
/// The forwarding bits of an object whose forwarding pointer is written.
pub const FORWARDED: u8 = 0b11;
/// The number of forwarding bits.
pub const FORWARDING_BITS: u64 = 2;
/// The bits of a forwarding word that hold the forwarding pointer.
pub const FORWARDING_POINTER_MASK: u64 = 0x00ff_ffff_ffff_fff8;

/// The metadata specs that forwarding uses: the forwarding bits and the forwarding pointer.
#[derive(Clone, Copy, Debug)]
pub struct ForwardingSpecs {
    pub bits: MetadataSpec,
    pub pointer: MetadataSpec,
}

impl ForwardingSpecs {
    /// The specs can be used for `object` in `mem`: the forwarding bits hold
    /// 2 to 8 bits, and the forwarding pointer a word that the pointer mask applies to.
    pub open spec fn usable(self, mem: ObjectMemory, object: Address) -> bool {
        &&& self.bits.accessible(mem, object)
        &&& 2 <= self.bits.width() <= 8
        &&& self.pointer.accessible(mem, object)
        &&& self.pointer.width() == 64
        &&& self.pointer.mask_ok(Some(FORWARDING_POINTER_MASK))
    }

    /// The forwarding bits of `object` in `mem`.
    pub open spec fn status(self, mem: ObjectMemory, object: Address) -> nat {
        self.bits.value_in(mem, object)
    }
}

/// The outcome of an attempt to forward an object.
pub enum ForwardingAttempt {
    /// This attempt started forwarding the object.
    Won(WonForwardingAttempt),
    /// Another thread started forwarding the object first.
    Lost(LostForwardingAttempt),
}

/// A won attempt: the object is being forwarded by this thread.
pub struct WonForwardingAttempt {
    object: Address,
}

/// A lost attempt, with the forwarding bits that the attempt found.
pub struct LostForwardingAttempt {
    object: Address,
    old_state: u8,
}

impl WonForwardingAttempt {
    /// The object being forwarded.
    pub closed spec fn object_spec(&self) -> Address {
        self.object
    }
}

impl LostForwardingAttempt {
    /// The object that another thread forwards.
    pub closed spec fn object_spec(&self) -> Address {
        self.object
    }

    /// The forwarding bits that the attempt found.
    pub closed spec fn old_state_spec(&self) -> u8 {
        self.old_state
    }
}

/// The forwarding bits of `object`.
fn get_forwarding_status(specs: &ForwardingSpecs, mem: &ObjectMemory, object: Address) -> (r: u8)
    requires
        specs.usable(*mem, object),
    ensures
        r == specs.status(*mem, object),
{
    let v = specs.bits.load_atomic(mem, object, None);
    proof {
        specs.bits.lemma_value_fits(*mem, object);
        vstd::arithmetic::power2::lemma2_to64();
        if specs.bits.width() < 8 {
            vstd::arithmetic::power2::lemma_pow2_strictly_increases(specs.bits.width(), 8);
        }
    }
    v as u8
}

/// Mark `object` as being forwarded if nobody started to forward it; return
/// the forwarding bits found.
fn attempt_to_forward(specs: &ForwardingSpecs, mem: &mut ObjectMemory, object: Address) -> (r: u8)
    requires
        specs.usable(*old(mem), object),
    ensures
        r == specs.status(*old(mem), object),
        r == FORWARDING_NOT_TRIGGERED_YET ==> specs.bits.stored(*old(mem), *final(mem), object, BEING_FORWARDED as nat),
        r != FORWARDING_NOT_TRIGGERED_YET ==> *final(mem) == *old(mem),
{
    let old_value = get_forwarding_status(specs, mem, object);
    if old_value != FORWARDING_NOT_TRIGGERED_YET {
        return old_value;
    }
    proof {
        specs.bits.lemma_bit_values(*mem, object);
        specs.bits.lemma_cas_without_mask(*mem, object, 0, 2);
        vstd::arithmetic::power2::lemma2_to64();
        vstd::arithmetic::power2::lemma_pow2_strictly_increases(1, specs.bits.width());
    }
    let res = specs.bits.compare_exchange_metadata(mem, object, 0, BEING_FORWARDED as u64, None);
    old_value
}

impl ForwardingAttempt {
    /// Attempt to forward `object`: the attempt is won if nobody started to
    /// forward it (it is then marked as being forwarded), and lost otherwise
    /// (nothing changes).
    pub fn attempt(specs: &ForwardingSpecs, mem: &mut ObjectMemory, object: Address) -> (r: Self)
        requires
            specs.usable(*old(mem), object),
        ensures
            specs.status(*old(mem), object) == FORWARDING_NOT_TRIGGERED_YET ==> {
                &&& r matches ForwardingAttempt::Won(w) && w.object_spec() == object
                &&& specs.bits.stored(*old(mem), *final(mem), object, BEING_FORWARDED as nat)
            },
            specs.status(*old(mem), object) != FORWARDING_NOT_TRIGGERED_YET ==> {
                &&& r matches ForwardingAttempt::Lost(l) && l.object_spec() == object
                    && l.old_state_spec() == specs.status(*old(mem), object)
                &&& *final(mem) == *old(mem)
            },
    {
        let old_state = attempt_to_forward(specs, mem, object);
        if state_is_forwarded_or_being_forwarded(old_state) {
            ForwardingAttempt::Lost(LostForwardingAttempt { object, old_state })
        } else {
            ForwardingAttempt::Won(WonForwardingAttempt { object })
        }
    }
}

/// The forwarding bits say that forwarding started.
pub fn state_is_forwarded_or_being_forwarded(forwarding_bits: u8) -> (r: bool)
    ensures
        r == (forwarding_bits != FORWARDING_NOT_TRIGGERED_YET),
{
    forwarding_bits != FORWARDING_NOT_TRIGGERED_YET
}

/// The forwarding bits say that forwarding is in progress.
pub fn state_is_being_forwarded(forwarding_bits: u8) -> (r: bool)
    ensures
        r == (forwarding_bits == BEING_FORWARDED),
{
    forwarding_bits == BEING_FORWARDED
}

/// The shift of the forwarding bits within the forwarding word, if both are in
/// the header and the bits lie within the word.
pub open spec fn bits_shift_in_pointer(specs: ForwardingSpecs) -> Option<int> {
    match (specs.pointer, specs.bits) {
        (MetadataSpec::InHeader(fp), MetadataSpec::InHeader(fb)) => {
            let shift = fb.bit_offset - fp.bit_offset;
            if 0 <= shift < 64 { Some(shift) } else { None }
        },
        _ => None,
    }
}

/// The shift of the forwarding bits within the forwarding word, if both are in
/// the header and the bits lie within the word.
pub fn forwarding_bits_offset_in_forwarding_pointer(specs: &ForwardingSpecs) -> (r: Option<u64>)
    ensures
        match bits_shift_in_pointer(*specs) {
            Some(s) => r == Some(s as u64),
            None => r is None,
        },
{
    match (&specs.pointer, &specs.bits) {
        (MetadataSpec::InHeader(fp), MetadataSpec::InHeader(fb)) => {
            let maybe_shift: i128 = fb.bit_offset as i128 - fp.bit_offset as i128;
            if 0 <= maybe_shift && maybe_shift < 64 {
                Some(maybe_shift as u64)
            } else {
                None
            }
        },
        _ => None,
    }
}

/// The memory after writing the forwarding pointer `new_object` and the
/// forwarding bits (`FORWARDED`) of `object`: one word store if the bits lie
/// within the forwarding word, else the pointer bits and then the forwarding bits.
pub open spec fn forwarded_to(specs: ForwardingSpecs, old_mem: ObjectMemory, new_mem: ObjectMemory, object: Address, new_object: Address) -> bool {
    match bits_shift_in_pointer(specs) {
        Some(shift) => specs.pointer.stored(old_mem, new_mem, object, (new_object | (3u64 << (shift as u64))) as nat),
        None => exists|mid: ObjectMemory| {
            &&& specs.pointer.stored(old_mem, mid, object,
                specs.pointer.merged(specs.pointer.value_in(old_mem, object), new_object as nat, Some(FORWARDING_POINTER_MASK)))
            &&& specs.bits.stored(mid, new_mem, object, FORWARDED as nat)
        },
    }
}

impl WonForwardingAttempt {
    /// Finish forwarding to `new_object`, the copy that the VM made of the
    /// object: write the forwarding pointer and mark the object as forwarded.
    /// Returns `new_object`.
    pub fn forward_object(self, specs: &ForwardingSpecs, mem: &mut ObjectMemory, new_object: Address) -> (r: Address)
        requires
            specs.usable(*old(mem), self.object_spec()),
        ensures
            r == new_object,
            forwarded_to(*specs, *old(mem), *final(mem), self.object_spec(), new_object),
    {
        write_forwarding_bits_and_forwarding_pointer(specs, mem, self.object, new_object);
        new_object
    }

    /// Give up forwarding: the object is not forwarded any more.
    pub fn revert(self, specs: &ForwardingSpecs, mem: &mut ObjectMemory)
        requires
            specs.usable(*old(mem), self.object_spec()),
        ensures
            specs.bits.stored(*old(mem), *final(mem), self.object_spec(), FORWARDING_NOT_TRIGGERED_YET as nat),
    {
        clear_forwarding_bits(specs, mem, self.object);
    }
}

/// Write the forwarding pointer and the forwarding bits of `object`.
fn write_forwarding_bits_and_forwarding_pointer(specs: &ForwardingSpecs, mem: &mut ObjectMemory, object: Address, new_object: Address)
    requires
        specs.usable(*old(mem), object),
    ensures
        forwarded_to(*specs, *old(mem), *final(mem), object, new_object),
{
    proof {
        vstd::arithmetic::power2::lemma2_to64();
        vstd::arithmetic::power2::lemma2_to64_rest();
    }
    if let Some(shift) = forwarding_bits_offset_in_forwarding_pointer(specs) {
        let v = new_object | (3u64 << shift);
        specs.pointer.store_atomic(mem, object, v, None);
    } else {
        let ghost m0 = *mem;
        write_forwarding_pointer(specs, mem, object, new_object);
        let ghost mid = *mem;
        proof {
            specs.bits.lemma_other_store_keeps_access(specs.pointer, m0, mid, object,
                specs.pointer.merged(specs.pointer.value_in(m0, object), new_object as nat, Some(FORWARDING_POINTER_MASK)));
            specs.bits.lemma_bit_values(mid, object);
            vstd::arithmetic::power2::lemma_pow2_strictly_increases(1, specs.bits.width());
        }
        specs.bits.store_atomic(mem, object, FORWARDED as u64, None);
    }
}

/// Write the forwarding pointer bits of `object`'s forwarding word.
fn write_forwarding_pointer(specs: &ForwardingSpecs, mem: &mut ObjectMemory, object: Address, new_object: Address)
    requires
        specs.usable(*old(mem), object),
    ensures
        specs.pointer.stored(*old(mem), *final(mem), object,
            specs.pointer.merged(specs.pointer.value_in(*old(mem), object), new_object as nat, Some(FORWARDING_POINTER_MASK))),
{
    proof {
        vstd::arithmetic::power2::lemma2_to64();
        vstd::arithmetic::power2::lemma2_to64_rest();
    }
    specs.pointer.store_atomic(mem, object, new_object, Some(FORWARDING_POINTER_MASK));
}

impl LostForwardingAttempt {
    /// The object that the winner forwarded, once it has: `None` while the
    /// forwarding bits still say that it is being forwarded (the caller then
    /// waits and asks again); the forwarding pointer once forwarded; the
    /// object itself if the winner reverted.
    pub fn spin_and_get_forwarded_object(&self, specs: &ForwardingSpecs, mem: &ObjectMemory) -> (r: Option<Address>)
        requires
            specs.usable(*mem, self.object_spec()),
            ({
                let bits = if self.old_state_spec() == BEING_FORWARDED { specs.status(*mem, self.object_spec()) } else { self.old_state_spec() as nat };
                bits == FORWARDING_NOT_TRIGGERED_YET || bits == BEING_FORWARDED || bits == FORWARDED
            }),
        ensures
            ({
                let bits = if self.old_state_spec() == BEING_FORWARDED { specs.status(*mem, self.object_spec()) } else { self.old_state_spec() as nat };
                &&& bits == BEING_FORWARDED ==> r is None
                &&& bits == FORWARDED ==> r == Some(specs.pointer.loaded(*mem, self.object_spec(), Some(FORWARDING_POINTER_MASK)) as u64)
                &&& bits == FORWARDING_NOT_TRIGGERED_YET ==> r == Some(self.object_spec())
            }),
    {
        let mut forwarding_bits = self.old_state;
        if forwarding_bits == BEING_FORWARDED {
            forwarding_bits = get_forwarding_status(specs, mem, self.object);
        }
        if forwarding_bits == BEING_FORWARDED {
            None
        } else if forwarding_bits == FORWARDED {
            Some(read_forwarding_pointer(specs, mem, self.object))
        } else {
            Some(self.object)
        }
    }
}

/// The object is forwarded.
pub fn is_forwarded(specs: &ForwardingSpecs, mem: &ObjectMemory, object: Address) -> (r: bool)
    requires
        specs.usable(*mem, object),
    ensures
        r == (specs.status(*mem, object) == FORWARDED),
{
    get_forwarding_status(specs, mem, object) == FORWARDED
}

/// The object is being forwarded.
pub fn is_being_forwarded(specs: &ForwardingSpecs, mem: &ObjectMemory, object: Address) -> (r: bool)
    requires
        specs.usable(*mem, object),
    ensures
        r == (specs.status(*mem, object) == BEING_FORWARDED),
{
    get_forwarding_status(specs, mem, object) == BEING_FORWARDED
}

/// The object is forwarded or being forwarded.
pub fn is_forwarded_or_being_forwarded(specs: &ForwardingSpecs, mem: &ObjectMemory, object: Address) -> (r: bool)
    requires
        specs.usable(*mem, object),
    ensures
        r == (specs.status(*mem, object) != FORWARDING_NOT_TRIGGERED_YET),
{
    get_forwarding_status(specs, mem, object) != FORWARDING_NOT_TRIGGERED_YET
}

/// Clear the forwarding bits: the object is not forwarded.
pub fn clear_forwarding_bits(specs: &ForwardingSpecs, mem: &mut ObjectMemory, object: Address)
    requires
        specs.usable(*old(mem), object),
    ensures
        specs.bits.stored(*old(mem), *final(mem), object, FORWARDING_NOT_TRIGGERED_YET as nat),
{
    proof {
        specs.bits.lemma_bit_values(*mem, object);
    }
    specs.bits.store_atomic(mem, object, 0, None)
}

/// The forwarding pointer of an object: the pointer bits of its forwarding word.
pub fn read_forwarding_pointer(specs: &ForwardingSpecs, mem: &ObjectMemory, object: Address) -> (r: Address)
    requires
        specs.usable(*mem, object),
    ensures
        r == specs.pointer.loaded(*mem, object, Some(FORWARDING_POINTER_MASK)),
{
    specs.pointer.load_atomic(mem, object, Some(FORWARDING_POINTER_MASK))
}

/// Only one attempt wins: once an attempt has won, the object is being
/// forwarded, so every later attempt (before a revert) loses and reports
/// `BEING_FORWARDED`.
pub proof fn lemma_one_winner(specs: ForwardingSpecs, m0: ObjectMemory, m1: ObjectMemory, object: Address)
    requires
        specs.usable(m0, object),
        specs.bits.stored(m0, m1, object, BEING_FORWARDED as nat),
    ensures
        specs.usable(m1, object),
        specs.status(m1, object) == BEING_FORWARDED,
        specs.status(m1, object) != FORWARDING_NOT_TRIGGERED_YET,
{
    specs.bits.lemma_stored_keeps_access(m0, m1, object, BEING_FORWARDED as nat);
    specs.pointer.lemma_other_store_keeps_access(specs.bits, m0, m1, object, BEING_FORWARDED as nat);
}

/// A revert undoes a won attempt: the forwarding bits are cleared, so the
/// next attempt wins again.
pub proof fn lemma_revert_then_win(specs: ForwardingSpecs, m1: ObjectMemory, m2: ObjectMemory, object: Address)
    requires
        specs.usable(m1, object),
        specs.bits.stored(m1, m2, object, FORWARDING_NOT_TRIGGERED_YET as nat),
    ensures
        specs.usable(m2, object),
        specs.status(m2, object) == FORWARDING_NOT_TRIGGERED_YET,
{
    specs.bits.lemma_stored_keeps_access(m1, m2, object, FORWARDING_NOT_TRIGGERED_YET as nat);
    specs.pointer.lemma_other_store_keeps_access(specs.bits, m1, m2, object, FORWARDING_NOT_TRIGGERED_YET as nat);
}

/// Once `forward_object` has written the forwarding state of `object`, the
/// forwarding bits read `FORWARDED` and the forwarding pointer reads the new
/// object. This holds where the forwarding pointer is in the header, the new
/// object has no bits outside the pointer mask, and the forwarding bits are
/// on the side or are two bits of the forwarding word outside the pointer
/// mask (the lowest bits or the top byte).
pub proof fn lemma_forwarded_reads(specs: ForwardingSpecs, old_mem: ObjectMemory, new_mem: ObjectMemory,
    object: Address, new_object: Address)
    requires
        specs.usable(old_mem, object),
        forwarded_to(specs, old_mem, new_mem, object, new_object),
        new_object & !FORWARDING_POINTER_MASK == 0,
        specs.pointer is InHeader,
        specs.bits is OnSide || ({
            &&& bits_shift_in_pointer(specs) matches Some(shift)
            &&& specs.bits.width() == 2
            &&& (shift <= 1 || 56 <= shift)
        }),
    ensures
        specs.status(new_mem, object) == FORWARDED,
        specs.pointer.loaded(new_mem, object, Some(FORWARDING_POINTER_MASK)) == new_object,
{
    let fp = specs.pointer->InHeader_0;
    let m = FORWARDING_POINTER_MASK;
    match bits_shift_in_pointer(specs) {
        None => {
            let mid = choose|mid: ObjectMemory| {
                &&& specs.pointer.stored(old_mem, mid, object,
                    specs.pointer.merged(specs.pointer.value_in(old_mem, object), new_object as nat, Some(FORWARDING_POINTER_MASK)))
                &&& specs.bits.stored(mid, new_mem, object, FORWARDED as nat)
            };
            assert(new_mem.heap == mid.heap);
            let prev = specs.pointer.value_in(old_mem, object);
            let p: u64 = prev as u64;
            let v: u64 = (p & !m) | (new_object & m);
            assert(fp.value_in(mid.heap, object as int) == v as nat);
            assert(((p & !m) | (new_object & m)) & m == new_object) by (bit_vector)
                requires
                    new_object & !m == 0;
        },
        Some(shift) => {
            let fb = specs.bits->InHeader_0;
            let su: u64 = shift as u64;
            let w: u64 = new_object | (3u64 << su);
            assert(fp.value_in(new_mem.heap, object as int) == w as nat);
            assert(w & m == new_object) by (bit_vector)
                requires
                    new_object & !m == 0,
                    w == new_object | (3u64 << su),
                    su <= 1 || (56 <= su && su < 64),
                    m == 0x00ff_ffff_ffff_fff8u64;
            // The forwarding bits are bits `t` and `t + 1` of byte `j` of the forwarding word.
            let c = fp.bit_offset / 64;
            let j = shift / 8;
            let t = shift % 8;
            vstd::arithmetic::div_mod::lemma_fundamental_div_mod(fp.bit_offset as int, 64);
            vstd::arithmetic::div_mod::lemma_fundamental_div_mod_converse(fp.bit_offset as int, 8, 8 * c, 0);
            vstd::arithmetic::div_mod::lemma_fundamental_div_mod_converse(fb.bit_offset as int, 8, 8 * c + j, t);
            let x = fp.meta_addr_spec(object as int);
            assert(fb.meta_addr_spec(object as int) == x + j);
            assert(fb.bit_shift_spec() == t);
            let r = new_mem.heap.range(x, 8);
            crate::memory::lemma_le_value_byte(r, j);
            assert(new_mem.heap.byte(x + j) == r[j]);
            vstd::bits::lemma_u64_shr_is_div(w, (8 * j) as u64);
            let y: u64 = w >> ((8 * j) as u64);
            let b = new_mem.heap.byte(x + j);
            assert(b as u64 == y % 256);
            let ju = j as u64;
            let tu = t as u64;
            assert(su == 8 * ju + tu);
            assert((8 * j) as u64 == 8 * ju);
            assert(((((y % 256) as u8) & ((((1u8 << 2u8) - 1u8) as u8) << (tu as u8))) >> (tu as u8)) == 3u8) by (bit_vector)
                requires
                    y == (new_object | (3u64 << su)) >> (8 * ju),
                    su == 8 * ju + tu,
                    ju < 8,
                    tu <= 6;
        },
    }
}

} // verus!
