//! The valid-object bit (VO bit): one side metadata bit per 8 bytes of data,
//! set at the address of each object that was allocated and not yet found
//! dead. The functions take the memory of the VO bit side table.
use vstd::prelude::*;
use vstd::arithmetic::power2::{pow2, lemma2_to64};
use crate::address::Address;
use crate::memory::MemoryRegion;
use super::global::{MetadataSpec, ObjectMemory};
use super::mark_bit::VMLocalMarkBitSpec;
use super::side_metadata::access::{field_get, bits_zeroed, zeroed_byte, byte_interval_mask};
use super::side_metadata::helpers::{address_to_meta_address, meta_byte_mask_spec};
use super::side_metadata::layout::vo_bit_spec;
use super::side_metadata::spec::SideMetadataSpec;

verus! {

/// The VO bit of the data address `addr` in the side table `mem`.
pub open spec fn vo_value(mem: MemoryRegion, addr: int) -> nat {
    field_get(mem.byte(addr / 64), (addr / 8 % 8) as u8, 1u8) as nat
}

/// The VO bit of `addr` can be read and written in `mem`.
pub open spec fn vo_accessible(mem: MemoryRegion, addr: int) -> bool {
    mem.wf() && mem.contains(addr / 64)
}

/// The VO bit of `addr` in `new` is `v`, and no other bit of `old` changed.
pub open spec fn vo_stored(old: MemoryRegion, new: MemoryRegion, addr: int, v: nat) -> bool {
    &&& vo_value(new, addr) == v
    &&& new.start_spec() == old.start_spec()
    &&& new.wf() == old.wf()
    &&& new.bytes_spec().len() == old.bytes_spec().len()
    &&& forall|x: int| #![trigger new.byte(x)] old.contains(x) && x != addr / 64 ==> new.byte(x) == old.byte(x)
    &&& new.byte(addr / 64) & !(1u8 << ((addr / 8 % 8) as u8)) == old.byte(addr / 64) & !(1u8 << ((addr / 8 % 8) as u8))
}

/// The spec of the VO bit: one bit per 8-byte region, at offset 0.
pub open spec fn is_vo_bit_spec(s: SideMetadataSpec) -> bool {
    &&& s.offset.value_spec() == 0
    &&& s.log_num_of_bits == 0
    &&& s.log_bytes_in_region == 3
    &&& s.wf()
}

/// Access through the VO bit spec is access to the bit `vo_value` names.
proof fn lemma_vo_spec(s: SideMetadataSpec, old: MemoryRegion, new: MemoryRegion, addr: int)
    requires
        is_vo_bit_spec(s),
        0 <= addr <= u64::MAX,
    ensures
        s.accessible(old, addr) == vo_accessible(old, addr),
        s.value_in(old, addr) == vo_value(old, addr),
        s.value_in(new, addr) == vo_value(new, addr),
        s.stored(old, new, addr, 1) == vo_stored(old, new, addr, 1),
        s.stored(old, new, addr, 0) == vo_stored(old, new, addr, 0),
        pow2(s.num_bits_spec()) == 2,
        s.meta_addr_spec(addr) == addr / 64,
        s.lshift_spec(addr) == addr / 8 % 8,
{
    lemma2_to64();
    assert(s.region_index(addr) == addr / 8);
    assert(addr / 8 / 8 == addr / 64) by {
        vstd::arithmetic::div_mod::lemma_div_denominator(addr, 8, 8);
    }
    assert(s.meta_rel_spec(addr) == addr / 64);
    assert(s.lshift_spec(addr) == addr / 8 % 8);
    assert(meta_byte_mask_spec(0) == 1);
    assert(s.bytes_per_value() == 1);
}

/// The VO bit spec of the core.
fn vo_spec() -> (r: SideMetadataSpec)
    ensures
        is_vo_bit_spec(r),
        r.is_global,
{
    vo_bit_spec()
}

/// The address of the VO bit side table.
pub fn vo_bit_side_metadata_addr() -> (r: Address)
    ensures
        r == 0,
{
    vo_spec().get_absolute_offset()
}

/// Set the VO bit of an object, which is not set.
pub fn set_vo_bit(mem: &mut MemoryRegion, object: Address)
    requires
        vo_accessible(*old(mem), object as int),
        vo_value(*old(mem), object as int) == 0,
    ensures
        vo_stored(*old(mem), *final(mem), object as int, 1),
{
    let vo = vo_spec();
    proof {
        lemma_vo_spec(vo, *mem, *mem, object as int);
    }
    let ghost m0 = *mem;
    vo.store_atomic(mem, object, 1);
    proof {
        lemma_vo_spec(vo, m0, *mem, object as int);
    }
}

/// Clear the VO bit of an object, which is set.
pub fn unset_vo_bit(mem: &mut MemoryRegion, object: Address)
    requires
        vo_accessible(*old(mem), object as int),
        vo_value(*old(mem), object as int) == 1,
    ensures
        vo_stored(*old(mem), *final(mem), object as int, 0),
{
    unset_vo_bit_nocheck(mem, object)
}

/// Clear the VO bit of an object, set or not.
pub fn unset_vo_bit_nocheck(mem: &mut MemoryRegion, object: Address)
    requires
        vo_accessible(*old(mem), object as int),
    ensures
        vo_stored(*old(mem), *final(mem), object as int, 0),
{
    let vo = vo_spec();
    proof {
        lemma_vo_spec(vo, *mem, *mem, object as int);
    }
    let ghost m0 = *mem;
    vo.store_atomic(mem, object, 0);
    proof {
        lemma_vo_spec(vo, m0, *mem, object as int);
    }
}

/// Clear the VO bit of an object, which is set, without atomic access.
pub fn unset_vo_bit_unsafe(mem: &mut MemoryRegion, object: Address)
    requires
        vo_accessible(*old(mem), object as int),
        vo_value(*old(mem), object as int) == 1,
    ensures
        vo_stored(*old(mem), *final(mem), object as int, 0),
{
    let vo = vo_spec();
    proof {
        lemma_vo_spec(vo, *mem, *mem, object as int);
    }
    let ghost m0 = *mem;
    vo.store(mem, object, 0);
    proof {
        lemma_vo_spec(vo, m0, *mem, object as int);
    }
}

/// The VO bit of an object is set.
pub fn is_vo_bit_set(mem: &MemoryRegion, object: Address) -> (r: bool)
    requires
        vo_accessible(*mem, object as int),
    ensures
        r == (vo_value(*mem, object as int) == 1),
{
    let vo = vo_spec();
    proof {
        lemma_vo_spec(vo, *mem, *mem, object as int);
    }
    vo.load_atomic(mem, object) == 1
}

/// The VO bit of `addr` is set (read without atomic access).
pub fn is_vo_addr(mem: &MemoryRegion, addr: Address) -> (r: bool)
    requires
        vo_accessible(*mem, addr as int),
    ensures
        r == (vo_value(*mem, addr as int) != 0),
{
    let vo = vo_spec();
    proof {
        lemma_vo_spec(vo, *mem, *mem, addr as int);
    }
    vo.load(mem, addr) != 0
}

/// The object at `vo_addr`, whose VO bit is set.
pub fn get_object_ref_for_vo_addr(mem: &MemoryRegion, vo_addr: Address) -> (r: Address)
    requires
        vo_addr % 8 == 0,
        vo_accessible(*mem, vo_addr as int),
        vo_value(*mem, vo_addr as int) != 0,
    ensures
        r == vo_addr,
{
    vo_addr
}

/// The object at the word-aligned address `addr`, if the VO bit of `addr` is
/// mapped (in `mem`) and set.
pub fn is_vo_bit_set_for_addr(mem: &MemoryRegion, addr: Address) -> (r: Option<Address>)
    requires
        addr % 8 == 0,
        mem.wf(),
    ensures
        r == if vo_accessible(*mem, addr as int) && vo_value(*mem, addr as int) == 1 {
            Some(addr)
        } else {
            None::<Address>
        },
{
    is_vo_bit_set_inner(mem, addr, true)
}

/// The object at the word-aligned address `addr`, if the VO bit of `addr` is
/// mapped and set (read without atomic access).
pub fn is_vo_bit_set_unsafe(mem: &MemoryRegion, addr: Address) -> (r: Option<Address>)
    requires
        addr % 8 == 0,
        mem.wf(),
    ensures
        r == if vo_accessible(*mem, addr as int) && vo_value(*mem, addr as int) == 1 {
            Some(addr)
        } else {
            None::<Address>
        },
{
    is_vo_bit_set_inner(mem, addr, false)
}

/// The object at `addr`, if the VO bit of `addr` is mapped and set.
fn is_vo_bit_set_inner(mem: &MemoryRegion, addr: Address, atomic: bool) -> (r: Option<Address>)
    requires
        addr % 8 == 0,
        mem.wf(),
    ensures
        r == if vo_accessible(*mem, addr as int) && vo_value(*mem, addr as int) == 1 {
            Some(addr)
        } else {
            None::<Address>
        },
{
    let vo = vo_spec();
    proof {
        lemma_vo_spec(vo, *mem, *mem, addr as int);
    }
    let meta = address_to_meta_address(&vo, addr);
    if !mem.is_mapped(meta) {
        return None;
    }
    let vo_bit = if atomic {
        vo.load_atomic(mem, addr)
    } else {
        vo.load(mem, addr)
    };
    if vo_bit == 1 {
        Some(get_object_ref_for_vo_addr(mem, addr))
    } else {
        None
    }
}

/// Bulk-zero the VO bits of the data range `[start, start + size)`.
pub fn bzero_vo_bit(mem: &mut MemoryRegion, start: Address, size: u64)
    requires
        vo_bit_spec_bzero_ok(*old(mem), start as int, size as int),
    ensures
        size == 0 ==> *final(mem) == *old(mem),
        size > 0 ==> bits_zeroed(*old(mem), *final(mem), start as int / 64, (start as int / 8 % 8) as u8,
            (start + size) / 64, ((start + size) / 8 % 8) as u8),
        forall|a: int| 0 <= a && old(mem).contains(a / 64) && start / 8 <= a / 8 < (start + size) / 8
            ==> #[trigger] vo_value(*final(mem), a) == 0,
        forall|a: int| 0 <= a && old(mem).contains(a / 64) && !(start / 8 <= a / 8 < (start + size) / 8)
            ==> #[trigger] vo_value(*final(mem), a) == vo_value(*old(mem), a),
{
    let vo = vo_spec();
    proof {
        assert(vo.bzero_ok(*mem, start as int, size as int));
        lemma_vo_spec(vo, *mem, *mem, start as int);
        lemma_vo_spec(vo, *mem, *mem, start + size);
        lemma2_to64();
        assert(vo.lshift_spec(start as int) == start / 8 % 8);
        assert(vo.lshift_spec(start + size) == (start + size) / 8 % 8);
    }
    let ghost m0 = *mem;
    vo.bzero_metadata(mem, start, size);
    proof {
        if size > 0 {
            lemma_vo_bzero(m0, *mem, start as int, start + size);
        }
    }
}

/// Copy the mark bits (kept on the side, one bit per 8 bytes like the VO
/// bits; in `mark_mem`) of the data range `[start, start + size)` into the
/// VO bits (in `mem`): the VO bit of each 8-byte region from that of `start`
/// up to (excluding) that of `start + size` becomes its mark bit; every other
/// VO bit is unchanged.
pub fn bcopy_vo_bit_from_mark_bit(mem: &mut MemoryRegion, start: Address, size: u64,
    mark_bit_spec: &MetadataSpec, mark_mem: &MemoryRegion)
    requires
        mark_bit_spec is OnSide,
        mark_bit_spec->OnSide_0.wf(),
        mark_bit_spec->OnSide_0.log_num_of_bits == 0,
        mark_bit_spec->OnSide_0.log_bytes_in_region == 3,
        start + size <= u64::MAX,
        forall|a: int| #![trigger vo_accessible(*old(mem), a)]
            start - start % 8 <= a < (start + size) - (start + size) % 8
            ==> vo_accessible(*old(mem), a) && mark_bit_spec->OnSide_0.accessible(*mark_mem, a),
    ensures
        final(mem).start_spec() == old(mem).start_spec(),
        final(mem).bytes_spec().len() == old(mem).bytes_spec().len(),
        forall|a: int| #![trigger vo_value(*final(mem), a)]
            start - start % 8 <= a < (start + size) - (start + size) % 8
            ==> vo_value(*final(mem), a) == mark_bit_spec->OnSide_0.value_in(*mark_mem, a),
        forall|a: int| #![trigger vo_value(*final(mem), a)]
            0 <= a <= u64::MAX && vo_accessible(*old(mem), a) && !(start - start % 8 <= a < (start + size) - (start + size) % 8)
            ==> vo_value(*final(mem), a) == vo_value(*old(mem), a),
{
    let vo = vo_spec();
    let side_mark_bit_spec = mark_bit_spec.extract_side_spec();
    let ghost m0 = *mem;
    proof {
        lemma2_to64();
        assert(vo.region_start(start as int) == start - start % 8);
        assert(vo.region_start(start + size) == (start + size) - (start + size) % 8);
        assert forall|a: int| #![trigger vo.accessible(m0, a)]
            vo.region_start(start as int) <= a < vo.region_start(start + size)
            implies vo.accessible(m0, a) && side_mark_bit_spec.accessible(*mark_mem, a) by {
            assert(vo_accessible(m0, a));
            lemma_vo_spec(vo, m0, m0, a);
        }
    }
    vo.bcopy_metadata_contiguous(mem, start, size, side_mark_bit_spec, mark_mem);
    proof {
        assert forall|a: int| #![trigger vo_value(*mem, a)]
            start - start % 8 <= a < (start + size) - (start + size) % 8
            implies vo_value(*mem, a) == side_mark_bit_spec.value_in(*mark_mem, a) by {
            lemma_vo_spec(vo, m0, *mem, a);
            assert(vo.value_in(*mem, a) == side_mark_bit_spec.value_in(*mark_mem, a));
        }
        assert forall|a: int| #![trigger vo_value(*mem, a)]
            0 <= a <= u64::MAX && vo_accessible(m0, a) && !(start - start % 8 <= a < (start + size) - (start + size) % 8)
            implies vo_value(*mem, a) == vo_value(m0, a) by {
            lemma_vo_spec(vo, m0, *mem, a);
            assert(vo.value_in(*mem, a) == vo.value_in(m0, a));
        }
    }
}

/// Bit `s` of a byte after clearing its bits `[lo, hi)`.
proof fn lemma_cleared_bit(b: u8, lo: u8, hi: u8, s: u8)
    requires
        lo <= 8,
        hi <= 8,
        s < 8,
    ensures
        ((b & !byte_interval_mask(lo, hi)) >> s) & 1u8 == if lo <= s && s < hi { 0u8 } else { (b >> s) & 1u8 },
{
    if hi >= 8 {
        assert(((b & !(0xFFu8 << lo)) >> s) & 1u8 == if lo <= s && s < hi { 0u8 } else { (b >> s) & 1u8 }) by (bit_vector)
            requires lo <= 8, hi == 8, s < 8;
    } else {
        assert(((b & !((0xFFu8 << lo) & !(0xFFu8 << hi))) >> s) & 1u8 == if lo <= s && s < hi { 0u8 } else { (b >> s) & 1u8 }) by (bit_vector)
            requires lo <= 8, hi < 8, s < 8;
    }
}

/// After the VO bits of the bit positions `start / 8 .. end / 8` were cleared
/// (as `bzero_vo_bit` does), the VO bit of an address in that range is 0, and
/// that of any other address is unchanged.
pub proof fn lemma_vo_bzero(old: MemoryRegion, new: MemoryRegion, start: int, end: int)
    requires
        0 <= start <= end,
        bits_zeroed(old, new, start / 64, (start / 8 % 8) as u8, end / 64, (end / 8 % 8) as u8),
    ensures
        forall|a: int| 0 <= a && old.contains(a / 64) && start / 8 <= a / 8 < end / 8 ==> #[trigger] vo_value(new, a) == 0,
        forall|a: int| 0 <= a && old.contains(a / 64) && !(start / 8 <= a / 8 < end / 8) ==> #[trigger] vo_value(new, a) == vo_value(old, a),
{
    assert forall|a: int| 0 <= a && old.contains(a / 64) implies #[trigger] vo_value(new, a) == if start / 8 <= a / 8 < end / 8 { 0 } else { vo_value(old, a) } by {
        let x = a / 64;
        let s = (a / 8 % 8) as u8;
        let sa = start / 64;
        let sb = (start / 8 % 8) as u8;
        let ea = end / 64;
        let eb = (end / 8 % 8) as u8;
        let b = old.byte(x);
        assert(new.byte(x) == zeroed_byte(b, x, sa, sb, ea, eb));
        assert(a / 8 == 8 * x + s) by {
            vstd::arithmetic::div_mod::lemma_div_denominator(a, 8, 8);
            vstd::arithmetic::div_mod::lemma_fundamental_div_mod(a / 8, 8);
        }
        assert(start / 8 == 8 * sa + sb) by {
            vstd::arithmetic::div_mod::lemma_div_denominator(start, 8, 8);
            vstd::arithmetic::div_mod::lemma_fundamental_div_mod(start / 8, 8);
        }
        assert(end / 8 == 8 * ea + eb) by {
            vstd::arithmetic::div_mod::lemma_div_denominator(end, 8, 8);
            vstd::arithmetic::div_mod::lemma_fundamental_div_mod(end / 8, 8);
        }
        if x < sa || x > ea {
        } else {
            let lo: u8 = if x == sa { sb } else { 0u8 };
            let hi: u8 = if x == ea { eb } else { 8u8 };
            lemma_cleared_bit(b, lo, hi, s);
        }
    }
}

/// The VO bits of `[start, start + size)` can be bulk-zeroed in `mem`.
pub open spec fn vo_bit_spec_bzero_ok(mem: MemoryRegion, start: int, size: int) -> bool {
    forall|s: SideMetadataSpec| is_vo_bit_spec(s) ==> #[trigger] s.bzero_ok(mem, start, size)
}

/// How the VO bits are kept up to date.
#[derive(Debug, Clone, Copy, PartialEq, Eq, Structural)]
pub enum VOBitUpdateStrategy {
    /// Clear all VO bits after the stacks are scanned, and set them again
    /// during tracing; they are not available during tracing.
    ClearAndReconstruct,
    /// Copy the mark bits to the VO bits after tracing; this needs mark bits
    /// on the side.
    CopyFromMarkBits,
}

impl VOBitUpdateStrategy {
    /// The VO bits are available during tracing.
    pub fn vo_bit_available_during_tracing(&self) -> (r: bool)
        ensures
            r == (*self == VOBitUpdateStrategy::CopyFromMarkBits),
    {
        match *self {
            VOBitUpdateStrategy::ClearAndReconstruct => false,
            VOBitUpdateStrategy::CopyFromMarkBits => true,
        }
    }
}

/// The strategy for a VM that does (or does not) need the VO bits during tracing.
pub fn strategy(need_vo_bits_during_tracing: bool) -> (r: VOBitUpdateStrategy)
    ensures
        r == if need_vo_bits_during_tracing {
            VOBitUpdateStrategy::CopyFromMarkBits
        } else {
            VOBitUpdateStrategy::ClearAndReconstruct
        },
{
    if need_vo_bits_during_tracing {
        VOBitUpdateStrategy::CopyFromMarkBits
    } else {
        VOBitUpdateStrategy::ClearAndReconstruct
    }
}

/// A configuration of the VO bits that cannot work.
#[derive(Debug, Clone, Copy, PartialEq, Eq, Structural)]
pub enum VOBitConfigError {
    /// Copying the mark bits needs mark bits on the side.
    MarkBitsNotOnSide,
    /// Copying the mark bits needs mark bits of the granularity of the VO bits.
    MarkBitGranularity,
    /// Copying the mark bits needs as many mark bits per object as VO bits.
    MarkBitWidth,
}

/// Check that the VO bit strategy of a VM (that does or does not need the VO
/// bits during tracing, and has the local mark bit `mark_bit_spec`) can work.
pub fn validate_config(need_vo_bits_during_tracing: bool, mark_bit_spec: &MetadataSpec) -> (r: Result<(), VOBitConfigError>)
    ensures
        !need_vo_bits_during_tracing ==> r is Ok,
        need_vo_bits_during_tracing ==> r == match *mark_bit_spec {
            MetadataSpec::InHeader(_) => Err(VOBitConfigError::MarkBitsNotOnSide),
            MetadataSpec::OnSide(s) => if s.log_bytes_in_region != 3 {
                Err(VOBitConfigError::MarkBitGranularity)
            } else if s.log_num_of_bits != 0 {
                Err(VOBitConfigError::MarkBitWidth)
            } else {
                Ok(())
            },
        },
{
    let s = strategy(need_vo_bits_during_tracing);
    match s {
        VOBitUpdateStrategy::ClearAndReconstruct => Ok(()),
        VOBitUpdateStrategy::CopyFromMarkBits => {
            match mark_bit_spec {
                MetadataSpec::InHeader(_) => Err(VOBitConfigError::MarkBitsNotOnSide),
                MetadataSpec::OnSide(mark_bit_meta) => {
                    let vo_bit_meta = vo_spec();
                    if mark_bit_meta.log_bytes_in_region != vo_bit_meta.log_bytes_in_region {
                        Err(VOBitConfigError::MarkBitGranularity)
                    } else if mark_bit_meta.log_num_of_bits != vo_bit_meta.log_num_of_bits {
                        Err(VOBitConfigError::MarkBitWidth)
                    } else {
                        Ok(())
                    }
                },
            }
        },
    }
}

/// The VO bits must be cleared before tracing (and set again during it).
pub fn need_to_clear_vo_bits_before_tracing(need_vo_bits_during_tracing: bool) -> (r: bool)
    ensures
        r == !need_vo_bits_during_tracing,
{
    match strategy(need_vo_bits_during_tracing) {
        VOBitUpdateStrategy::ClearAndReconstruct => true,
        VOBitUpdateStrategy::CopyFromMarkBits => false,
    }
}

/// When an object is marked: with the strategy that clears the VO bits before
/// tracing, set its VO bit again (it must not be set yet).
pub fn on_object_marked(need_vo_bits_during_tracing: bool, mem: &mut MemoryRegion, object: Address)
    requires
        vo_accessible(*old(mem), object as int),
        !need_vo_bits_during_tracing ==> vo_value(*old(mem), object as int) == 0,
    ensures
        !need_vo_bits_during_tracing ==> vo_stored(*old(mem), *final(mem), object as int, 1),
        need_vo_bits_during_tracing ==> *final(mem) == *old(mem),
{
    match strategy(need_vo_bits_during_tracing) {
        VOBitUpdateStrategy::ClearAndReconstruct => set_vo_bit(mem, object),
        VOBitUpdateStrategy::CopyFromMarkBits => {},
    }
}

/// When an object was forwarded to `new_object`: its VO bit is set; with
/// the strategy that copies the mark bits, the copy is also marked (with
/// `mark_bit`, in `mem`), so that copying the mark bits keeps its VO bit.
pub fn on_object_forwarded(need_vo_bits_during_tracing: bool, vo_mem: &mut MemoryRegion,
    mark_bit: &VMLocalMarkBitSpec, mem: &mut ObjectMemory, new_object: Address)
    requires
        vo_accessible(*old(vo_mem), new_object as int),
        vo_value(*old(vo_mem), new_object as int) == 0,
        need_vo_bits_during_tracing ==> mark_bit.0.accessible(*old(mem), new_object),
    ensures
        vo_stored(*old(vo_mem), *final(vo_mem), new_object as int, 1),
        need_vo_bits_during_tracing ==> mark_bit.0.stored(*old(mem), *final(mem), new_object, 1),
        !need_vo_bits_during_tracing ==> *final(mem) == *old(mem),
{
    match strategy(need_vo_bits_during_tracing) {
        VOBitUpdateStrategy::ClearAndReconstruct => {
            set_vo_bit(vo_mem, new_object);
        },
        VOBitUpdateStrategy::CopyFromMarkBits => {
            mark_bit.mark(mem, new_object);
            set_vo_bit(vo_mem, new_object);
        },
    }
}

/// When a region of `bytes` bytes at `start` was swept: with the strategy
/// that copies the mark bits, the VO bits of the region become its mark bits
/// if it holds live objects (`is_occupied`), and are cleared if not; with the
/// other strategy they were rebuilt during tracing and stay as they are.
pub fn on_region_swept(need_vo_bits_during_tracing: bool, vo_mem: &mut MemoryRegion, start: Address, bytes: u64,
    is_occupied: bool, mark_bit_spec: &MetadataSpec, mark_mem: &MemoryRegion)
    requires
        need_vo_bits_during_tracing && is_occupied ==> {
            &&& mark_bit_spec is OnSide
            &&& mark_bit_spec->OnSide_0.wf()
            &&& mark_bit_spec->OnSide_0.log_num_of_bits == 0
            &&& mark_bit_spec->OnSide_0.log_bytes_in_region == 3
            &&& start + bytes <= u64::MAX
            &&& forall|a: int| #![trigger vo_accessible(*old(vo_mem), a)]
                start - start % 8 <= a < (start + bytes) - (start + bytes) % 8
                ==> vo_accessible(*old(vo_mem), a) && mark_bit_spec->OnSide_0.accessible(*mark_mem, a)
        },
        need_vo_bits_during_tracing && !is_occupied ==> vo_bit_spec_bzero_ok(*old(vo_mem), start as int, bytes as int),
    ensures
        !need_vo_bits_during_tracing ==> *final(vo_mem) == *old(vo_mem),
        need_vo_bits_during_tracing && is_occupied ==> {
            &&& forall|a: int| #![trigger vo_value(*final(vo_mem), a)]
                start - start % 8 <= a < (start + bytes) - (start + bytes) % 8
                ==> vo_value(*final(vo_mem), a) == mark_bit_spec->OnSide_0.value_in(*mark_mem, a)
            &&& forall|a: int| #![trigger vo_value(*final(vo_mem), a)]
                0 <= a <= u64::MAX && vo_accessible(*old(vo_mem), a) && !(start - start % 8 <= a < (start + bytes) - (start + bytes) % 8)
                ==> vo_value(*final(vo_mem), a) == vo_value(*old(vo_mem), a)
        },
        need_vo_bits_during_tracing && !is_occupied ==> {
            &&& forall|a: int| 0 <= a && old(vo_mem).contains(a / 64) && start / 8 <= a / 8 < (start + bytes) / 8
                ==> #[trigger] vo_value(*final(vo_mem), a) == 0
            &&& forall|a: int| 0 <= a && old(vo_mem).contains(a / 64) && !(start / 8 <= a / 8 < (start + bytes) / 8)
                ==> #[trigger] vo_value(*final(vo_mem), a) == vo_value(*old(vo_mem), a)
        },
{
    match strategy(need_vo_bits_during_tracing) {
        VOBitUpdateStrategy::ClearAndReconstruct => {},
        VOBitUpdateStrategy::CopyFromMarkBits => {
            if is_occupied {
                bcopy_vo_bit_from_mark_bit(vo_mem, start, bytes, mark_bit_spec, mark_mem);
            } else {
                bzero_vo_bit(vo_mem, start, bytes);
            }
        },
    }
}

/// Setting and then clearing the VO bit of an object gives back the side
/// table it had (the same bytes at the same place), and reading it in
/// between gives 1.
pub proof fn lemma_set_unset(m0: MemoryRegion, m1: MemoryRegion, m2: MemoryRegion, object: int)
    requires
        vo_accessible(m0, object),
        vo_value(m0, object) == 0,
        vo_stored(m0, m1, object, 1),
        vo_stored(m1, m2, object, 0),
    ensures
        vo_value(m1, object) == 1,
        m2.start_spec() == m0.start_spec(),
        m2.bytes_spec() == m0.bytes_spec(),
{
    let b = object / 64;
    let s = (object / 8 % 8) as u8;
    assert(0 <= s < 8);
    let b0 = m0.byte(b);
    let b2 = m2.byte(b);
    let b1 = m1.byte(b);
    assert(b2 == b0) by {
        assert(((b0 >> s) & 1u8) == 0);
        assert(((b2 >> s) & 1u8) == 0);
        assert(b2 & !(1u8 << s) == b1 & !(1u8 << s));
        assert(b1 & !(1u8 << s) == b0 & !(1u8 << s));
        assert(b2 & !(1u8 << s) == b0 & !(1u8 << s));
        assert(b2 == b0) by (bit_vector)
            requires
                s < 8,
                (b0 >> s) & 1u8 == 0,
                (b2 >> s) & 1u8 == 0,
                b2 & !(1u8 << s) == b0 & !(1u8 << s);
    }
    assert(m2.bytes_spec() =~= m0.bytes_spec()) by {
        assert forall|i: int| 0 <= i < m0.bytes_spec().len() implies m2.bytes_spec()[i] == m0.bytes_spec()[i] by {
            assert(m0.contains(m0.start_spec() + i));
            assert(m2.byte(m0.start_spec() + i) == m0.byte(m0.start_spec() + i));
        }
    }
}

} // verus!
