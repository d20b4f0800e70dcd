//! The layout of the side metadata specs: each spec is laid out right after the
//! previous one, global specs from the global base offset and local specs from
//! the local base offset (just after the last global spec of the core).
use vstd::prelude::*;
use vstd::arithmetic::power2::{pow2, lemma2_to64, lemma2_to64_rest, lemma_pow2_strictly_increases};
use crate::address::Address;
use crate::constants::BYTES_IN_PAGE;
use crate::conversions::{align_up_spec, raw_align_up};
use super::spec::{SideMetadataSpec, SideMetadataOffset, log_arch_address_space};
use super::super::global::{MetadataSpec, extract_side_metadata};

verus! {

/// The definition of a side metadata spec, before its offset is laid out.
#[derive(Clone, Copy, Debug)]
pub struct SideMetadataSpecDef {
    pub name: &'static str,
    pub is_global: bool,
    pub log_num_of_bits: usize,
    pub log_bytes_in_region: usize,
}

impl SideMetadataSpecDef {
    /// The definition describes a well-formed spec.
    pub open spec fn wf(self) -> bool {
        &&& self.log_num_of_bits <= 6
        &&& self.log_bytes_in_region < 64
        &&& self.log_num_of_bits <= 3 + self.log_bytes_in_region
        &&& 3 + self.log_bytes_in_region - self.log_num_of_bits <= log_arch_address_space()
    }
}

/// `specs` are `defs` laid out one after another from `base`.
pub open spec fn laid_out(defs: Seq<SideMetadataSpecDef>, specs: Seq<SideMetadataSpec>, base: int) -> bool {
    &&& specs.len() == defs.len()
    &&& forall|i: int| 0 <= i < defs.len() ==> {
        &&& (#[trigger] specs[i]).name == defs[i].name
        &&& specs[i].is_global == defs[i].is_global
        &&& specs[i].log_num_of_bits == defs[i].log_num_of_bits
        &&& specs[i].log_bytes_in_region == defs[i].log_bytes_in_region
        &&& specs[i].wf()
    }
    &&& consecutive(specs, base)
}

/// The end offset of the side metadata of `spec`.
pub open spec fn spec_end(spec: SideMetadataSpec) -> int {
    spec.offset.value_spec() + spec.range_size_spec()
}

/// Each spec of `specs` starts where the one before it ends, the first at `base`.
pub open spec fn consecutive(specs: Seq<SideMetadataSpec>, base: int) -> bool {
    &&& specs.len() > 0 ==> specs[0].offset.value_spec() == base
    &&& forall|i: int| 0 < i < specs.len() ==>
        (#[trigger] specs[i]).offset.value_spec() == spec_end(specs[i - 1])
}

/// Specs laid out one after another do not overlap: each ends at or before
/// the start of every later one, and all of them lie between `base` and the
/// end of the last.
pub proof fn lemma_consecutive_apart(specs: Seq<SideMetadataSpec>, base: int)
    requires
        consecutive(specs, base),
    ensures
        forall|i: int, j: int| 0 <= i < j < specs.len()
            ==> spec_end(#[trigger] specs[i]) <= (#[trigger] specs[j]).offset.value_spec(),
        forall|i: int| 0 <= i < specs.len() ==> base <= (#[trigger] specs[i]).offset.value_spec()
            && spec_end(specs[i]) <= spec_end(specs.last()),
    decreases specs.len(),
{
    if specs.len() > 0 {
        let front = specs.drop_last();
        assert(consecutive(front, base)) by {
            assert forall|i: int| 0 < i < front.len() implies
                (#[trigger] front[i]).offset.value_spec() == spec_end(front[i - 1]) by {
                assert(specs[i] == front[i]);
            }
        }
        lemma_consecutive_apart(front, base);
        let n = specs.len() - 1;
        assert forall|i: int, j: int| 0 <= i < j < specs.len()
            implies spec_end(#[trigger] specs[i]) <= (#[trigger] specs[j]).offset.value_spec() by {
            assert(front.len() == n);
            if j < n {
                assert(specs[i] == front[i] && specs[j] == front[j]);
            } else if i < n - 1 {
                assert(specs[i] == front[i] && specs[n - 1] == front[n - 1]);
                assert(spec_end(front[i]) <= spec_end(front.last()));
            }
        }
        assert forall|i: int| 0 <= i < specs.len() implies base <= (#[trigger] specs[i]).offset.value_spec()
            && spec_end(specs[i]) <= spec_end(specs.last()) by {
            if i < n {
                assert(specs[i] == front[i]);
                if n > 0 {
                    assert(specs[n - 1] == front[n - 1]);
                    assert(spec_end(front[i]) <= spec_end(front.last()));
                }
            } else if n > 0 {
                assert(specs[n - 1] == front[n - 1]);
                assert(base <= front[n - 1].offset.value_spec());
            }
        }
    }
}

/// The side metadata of a spec covers at most `2^47` bytes.
proof fn lemma_range_bound(spec: SideMetadataSpec)
    requires
        spec.wf(),
    ensures
        spec.range_size_spec() <= pow2(47),
{
    if spec.rshift_spec() > 0 {
        lemma_pow2_strictly_increases((47 - spec.rshift_spec()) as nat, 47);
    }
}

/// Lay out `defs` one after another from `base`.
pub fn lay_out_specs(defs: &[SideMetadataSpecDef], base: u64) -> (r: Vec<SideMetadataSpec>)
    requires
        defs@.len() <= 1024,
        base <= pow2(48),
        forall|i: int| 0 <= i < defs@.len() ==> (#[trigger] defs@[i]).wf(),
    ensures
        laid_out(defs@, r@, base as int),
{
    let mut specs: Vec<SideMetadataSpec> = Vec::new();
    let mut next = SideMetadataOffset::addr(base);
    let mut i: usize = 0;
    proof {
        lemma2_to64();
        lemma2_to64_rest();
    }
    while i < defs.len()
        invariant
            i <= defs@.len() <= 1024,
            base <= pow2(48),
            pow2(47) == 0x8000_0000_0000,
            pow2(48) == 0x1_0000_0000_0000,
            forall|j: int| 0 <= j < defs@.len() ==> (#[trigger] defs@[j]).wf(),
            laid_out(defs@.subrange(0, i as int), specs@, base as int),
            next.value_spec() <= base + i * pow2(47),
            i == 0 ==> next.value_spec() == base,
            i > 0 ==> next.value_spec() == specs@[i - 1].offset.value_spec() + specs@[i - 1].range_size_spec(),
        decreases defs@.len() - i,
    {
        let d = defs[i];
        let spec = SideMetadataSpec {
            name: d.name,
            is_global: d.is_global,
            offset: next,
            log_num_of_bits: d.log_num_of_bits,
            log_bytes_in_region: d.log_bytes_in_region,
        };
        proof {
            lemma_range_bound(spec);
            assert(next.value_spec() + spec.range_size_spec() <= base + (i + 1) * pow2(47)) by (nonlinear_arith)
                requires
                    next.value_spec() <= base + i * pow2(47),
                    spec.range_size_spec() <= pow2(47);
            assert((i + 1) * pow2(47) <= 1024 * 0x8000_0000_0000) by (nonlinear_arith)
                requires
                    i + 1 <= 1024,
                    pow2(47) == 0x8000_0000_0000;
        }
        next = spec.upper_bound_offset();
        specs.push(spec);
        i = i + 1;
        proof {
            let prefix = defs@.subrange(0, i as int);
            assert forall|j: int| 0 <= j < prefix.len() implies {
                &&& (#[trigger] specs@[j]).name == prefix[j].name
                &&& specs@[j].is_global == prefix[j].is_global
                &&& specs@[j].log_num_of_bits == prefix[j].log_num_of_bits
                &&& specs@[j].log_bytes_in_region == prefix[j].log_bytes_in_region
                &&& specs@[j].wf()
            } by {
                if j < i - 1 {
                    assert(defs@.subrange(0, i - 1)[j] == prefix[j]);
                }
            }
            assert forall|j: int| 0 < j < prefix.len() implies
                (#[trigger] specs@[j]).offset.value_spec() == specs@[j - 1].offset.value_spec() + specs@[j - 1].range_size_spec()
            by {
            }
        }
    }
    proof {
        assert(defs@.subrange(0, defs@.len() as int) =~= defs@);
    }
    specs
}

/// The offset of the first global side metadata spec.
pub fn global_side_metadata_base_offset() -> (r: SideMetadataOffset)
    ensures
        r.value_spec() == 0,
{
    SideMetadataOffset::addr(0)
}

/// The global side metadata specs of the core: the valid-object bit, the
/// active-chunk bytes of mark-sweep, and the chunk-map index of the space
/// function table.
pub fn core_global_spec_defs() -> (r: Vec<SideMetadataSpecDef>)
    ensures
        r@.len() == 3,
        r@[0].is_global && r@[0].log_num_of_bits == 0 && r@[0].log_bytes_in_region == 3,
        r@[1].is_global && r@[1].log_num_of_bits == 3 && r@[1].log_bytes_in_region == 22,
        r@[2].is_global && r@[2].log_num_of_bits == 3 && r@[2].log_bytes_in_region == 22,
{
    vec![
        SideMetadataSpecDef { name: "VO_BIT", is_global: true, log_num_of_bits: 0, log_bytes_in_region: 3 },
        SideMetadataSpecDef { name: "MS_ACTIVE_CHUNK", is_global: true, log_num_of_bits: 3, log_bytes_in_region: 22 },
        SideMetadataSpecDef { name: "SFT_DENSE_CHUNK_MAP_INDEX", is_global: true, log_num_of_bits: 3, log_bytes_in_region: 22 },
    ]
}

/// The global side metadata specs of the core, laid out from the global base offset.
pub fn core_global_specs() -> (r: Vec<SideMetadataSpec>)
    ensures
        r@.len() == 3,
        consecutive(r@, 0),
        r@[0].log_num_of_bits == 0 && r@[0].log_bytes_in_region == 3 && r@[0].is_global,
        r@[1].log_num_of_bits == 3 && r@[1].log_bytes_in_region == 22 && r@[1].is_global,
        r@[2].log_num_of_bits == 3 && r@[2].log_bytes_in_region == 22 && r@[2].is_global,
        spec_end(r@[2]) == 0x200_0400_0000,
        forall|i: int| 0 <= i < 3 ==> (#[trigger] r@[i]).wf() && spec_end(r@[i]) <= 0x200_0400_0000,
{
    let defs = core_global_spec_defs();
    proof {
        lemma2_to64();
        lemma2_to64_rest();
    }
    let specs = lay_out_specs(defs.as_slice(), 0);
    proof {
        assert(specs@[1].offset.value_spec() == specs@[0].offset.value_spec() + specs@[0].range_size_spec());
        assert(specs@[2].offset.value_spec() == specs@[1].offset.value_spec() + specs@[1].range_size_spec());
        lemma_consecutive_apart(specs@, 0);
    }
    specs
}

/// The valid-object bit: one bit per 8 bytes of data.
pub fn vo_bit_spec() -> (r: SideMetadataSpec)
    ensures
        r.offset.value_spec() == 0,
        r.log_num_of_bits == 0,
        r.log_bytes_in_region == 3,
        r.is_global,
        r.wf(),
{
    let specs = core_global_specs();
    specs[0]
}

/// The last global side metadata spec of the core.
pub fn last_global_side_metadata_spec() -> (r: SideMetadataSpec)
    ensures
        r.wf(),
        r.offset.value_spec() + r.range_size_spec() == 0x200_0400_0000,
{
    let specs = core_global_specs();
    specs[2]
}

/// The offset of the first local side metadata spec: just after the core's global specs.
pub fn local_side_metadata_base_offset() -> (r: SideMetadataOffset)
    ensures
        r.value_spec() == 0x200_0400_0000,
{
    let last = last_global_side_metadata_spec();
    SideMetadataOffset::layout_after(&last)
}

/// The local side metadata specs of the core: the active pages of malloc
/// mark-sweep, the offset bits of malloc objects, the line, block and chunk
/// marks of Immix and the chunk map, and the block fields of native
/// mark-sweep.
pub fn core_local_spec_defs() -> (r: Vec<SideMetadataSpecDef>)
    ensures
        r@.len() == 15,
        r@[0].log_num_of_bits == 3 && r@[0].log_bytes_in_region == 12 && !r@[0].is_global,
        r@[1].log_num_of_bits == 0 && r@[1].log_bytes_in_region == 3 && !r@[1].is_global,
        r@[2].log_num_of_bits == 3 && r@[2].log_bytes_in_region == 8 && !r@[2].is_global,
        r@[3].log_num_of_bits == 3 && r@[3].log_bytes_in_region == 15 && !r@[3].is_global,
        r@[4].log_num_of_bits == 3 && r@[4].log_bytes_in_region == 15 && !r@[4].is_global,
        r@[5].log_num_of_bits == 3 && r@[5].log_bytes_in_region == 22 && !r@[5].is_global,
        r@[6].log_num_of_bits == 3 && r@[6].log_bytes_in_region == 16 && !r@[6].is_global,
        r@[7].log_num_of_bits == 6 && r@[7].log_bytes_in_region == 16 && !r@[7].is_global,
        r@[8].log_num_of_bits == 6 && r@[8].log_bytes_in_region == 16 && !r@[8].is_global,
        r@[9].log_num_of_bits == 6 && r@[9].log_bytes_in_region == 16 && !r@[9].is_global,
        r@[10].log_num_of_bits == 6 && r@[10].log_bytes_in_region == 16 && !r@[10].is_global,
        r@[11].log_num_of_bits == 6 && r@[11].log_bytes_in_region == 16 && !r@[11].is_global,
        r@[12].log_num_of_bits == 6 && r@[12].log_bytes_in_region == 16 && !r@[12].is_global,
        r@[13].log_num_of_bits == 6 && r@[13].log_bytes_in_region == 16 && !r@[13].is_global,
        r@[14].log_num_of_bits == 6 && r@[14].log_bytes_in_region == 16 && !r@[14].is_global,
{
    vec![
        SideMetadataSpecDef { name: "MALLOC_MS_ACTIVE_PAGE", is_global: false, log_num_of_bits: 3, log_bytes_in_region: 12 },
        SideMetadataSpecDef { name: "MS_OFFSET_MALLOC", is_global: false, log_num_of_bits: 0, log_bytes_in_region: 3 },
        SideMetadataSpecDef { name: "IX_LINE_MARK", is_global: false, log_num_of_bits: 3, log_bytes_in_region: 8 },
        SideMetadataSpecDef { name: "IX_BLOCK_DEFRAG", is_global: false, log_num_of_bits: 3, log_bytes_in_region: 15 },
        SideMetadataSpecDef { name: "IX_BLOCK_MARK", is_global: false, log_num_of_bits: 3, log_bytes_in_region: 15 },
        SideMetadataSpecDef { name: "CHUNK_MARK", is_global: false, log_num_of_bits: 3, log_bytes_in_region: 22 },
        SideMetadataSpecDef { name: "MS_BLOCK_MARK", is_global: false, log_num_of_bits: 3, log_bytes_in_region: 16 },
        SideMetadataSpecDef { name: "MS_BLOCK_NEXT", is_global: false, log_num_of_bits: 6, log_bytes_in_region: 16 },
        SideMetadataSpecDef { name: "MS_BLOCK_PREV", is_global: false, log_num_of_bits: 6, log_bytes_in_region: 16 },
        SideMetadataSpecDef { name: "MS_BLOCK_LIST", is_global: false, log_num_of_bits: 6, log_bytes_in_region: 16 },
        SideMetadataSpecDef { name: "MS_BLOCK_SIZE", is_global: false, log_num_of_bits: 6, log_bytes_in_region: 16 },
        SideMetadataSpecDef { name: "MS_BLOCK_TLS", is_global: false, log_num_of_bits: 6, log_bytes_in_region: 16 },
        SideMetadataSpecDef { name: "MS_FREE", is_global: false, log_num_of_bits: 6, log_bytes_in_region: 16 },
        SideMetadataSpecDef { name: "MS_LOCAL_FREE", is_global: false, log_num_of_bits: 6, log_bytes_in_region: 16 },
        SideMetadataSpecDef { name: "MS_THREAD_FREE", is_global: false, log_num_of_bits: 6, log_bytes_in_region: 16 },
    ]
}

/// The local side metadata specs of the core, laid out from the local base offset.
pub fn core_local_specs() -> (r: Vec<SideMetadataSpec>)
    ensures
        r@.len() == 15,
        consecutive(r@, 0x200_0400_0000),
        spec_end(r@[14]) == 0x4aa_8600_0000,
        forall|i: int| 0 <= i < 15 ==> (#[trigger] r@[i]).wf() && 0x200_0400_0000 <= r@[i].offset.value_spec()
            && spec_end(r@[i]) <= 0x4aa_8600_0000,
{
    let defs = core_local_spec_defs();
    proof {
        lemma2_to64();
        lemma2_to64_rest();
    }
    let base = local_side_metadata_base_offset();
    let specs = lay_out_specs(defs.as_slice(), base.addr_value());
    proof {
        assert(specs@[1].offset.value_spec() == specs@[0].offset.value_spec() + specs@[0].range_size_spec());
        assert(specs@[2].offset.value_spec() == specs@[1].offset.value_spec() + specs@[1].range_size_spec());
        assert(specs@[3].offset.value_spec() == specs@[2].offset.value_spec() + specs@[2].range_size_spec());
        assert(specs@[4].offset.value_spec() == specs@[3].offset.value_spec() + specs@[3].range_size_spec());
        assert(specs@[5].offset.value_spec() == specs@[4].offset.value_spec() + specs@[4].range_size_spec());
        assert(specs@[6].offset.value_spec() == specs@[5].offset.value_spec() + specs@[5].range_size_spec());
        assert(specs@[7].offset.value_spec() == specs@[6].offset.value_spec() + specs@[6].range_size_spec());
        assert(specs@[8].offset.value_spec() == specs@[7].offset.value_spec() + specs@[7].range_size_spec());
        assert(specs@[9].offset.value_spec() == specs@[8].offset.value_spec() + specs@[8].range_size_spec());
        assert(specs@[10].offset.value_spec() == specs@[9].offset.value_spec() + specs@[9].range_size_spec());
        assert(specs@[11].offset.value_spec() == specs@[10].offset.value_spec() + specs@[10].range_size_spec());
        assert(specs@[12].offset.value_spec() == specs@[11].offset.value_spec() + specs@[11].range_size_spec());
        assert(specs@[13].offset.value_spec() == specs@[12].offset.value_spec() + specs@[12].range_size_spec());
        assert(specs@[14].offset.value_spec() == specs@[13].offset.value_spec() + specs@[13].range_size_spec());
        lemma_consecutive_apart(specs@, 0x200_0400_0000);
    }
    specs
}

/// The last local side metadata spec of the core.
pub fn last_local_side_metadata_spec() -> (r: SideMetadataSpec)
    ensures
        r.wf(),
        r.offset.value_spec() + r.range_size_spec() == 0x4aa_8600_0000,
{
    let specs = core_local_specs();
    specs[14]
}

/// The larger of two offsets.
fn max_u64(a: u64, b: u64) -> (r: u64)
    ensures
        r == if a >= b { a } else { b },
{
    if a >= b { a } else { b }
}

/// The bytes of global side metadata, from the global base: up to the end of
/// the core's global specs or of the VM binding's side metadata (`vm_end`),
/// whichever is further.
pub fn global_side_metadata_bytes(vm_end: u64) -> (r: u64)
    ensures
        r == if vm_end >= 0x200_0400_0000 { vm_end as int } else { 0x200_0400_0000 },
{
    let end = last_global_side_metadata_spec().upper_bound_offset().addr_value();
    max_u64(end, vm_end)
}

/// The address where local side metadata starts: after the global side
/// metadata of the side metadata base `base`.
pub fn local_side_metadata_base_address(base: Address, vm_end: u64) -> (r: Address)
    requires
        base + (if vm_end >= 0x200_0400_0000 { vm_end as int } else { 0x200_0400_0000 }) <= u64::MAX,
    ensures
        r == base + (if vm_end >= 0x200_0400_0000 { vm_end as int } else { 0x200_0400_0000 }),
{
    base + global_side_metadata_bytes(vm_end)
}

/// The bytes of all side metadata, from the side metadata base: up to the end
/// of the core's local specs or of the VM binding's side metadata (`vm_end`),
/// whichever is further.
pub fn total_side_metadata_bytes(vm_end: u64) -> (r: u64)
    ensures
        r == if vm_end >= 0x4aa_8600_0000 { vm_end as int } else { 0x4aa_8600_0000 },
{
    let end = last_local_side_metadata_spec().upper_bound_offset().addr_value();
    max_u64(end, vm_end)
}

/// The bytes of address space reserved for side metadata: all side metadata,
/// rounded up to the mapping granularity.
pub fn side_metadata_reserved_bytes(vm_end: u64, granularity: u64) -> (r: u64)
    requires
        granularity > 0,
        vm_end + granularity - 1 <= u64::MAX,
        0x4aa_8600_0000 + granularity - 1 <= u64::MAX,
    ensures
        r == align_up_spec(if vm_end >= 0x4aa_8600_0000 { vm_end as int } else { 0x4aa_8600_0000 }, granularity as int),
{
    raw_align_up(total_side_metadata_bytes(vm_end), granularity)
}

/// The number of pages that the side metadata base reserves: the reserved
/// bytes in whole pages.
pub fn side_metadata_reserved_pages(vm_end: u64, granularity: u64) -> (r: u64)
    requires
        granularity > 0,
        vm_end + granularity - 1 <= u64::MAX,
        0x4aa_8600_0000 + granularity - 1 <= u64::MAX,
    ensures
        r == align_up_spec(if vm_end >= 0x4aa_8600_0000 { vm_end as int } else { 0x4aa_8600_0000 }, granularity as int)
            / BYTES_IN_PAGE as int,
{
    side_metadata_reserved_bytes(vm_end, granularity) / BYTES_IN_PAGE
}

/// Define side metadata specs from `defs`, each laid out after the previous
/// one; the first starts at the global base offset if it is global, else at
/// the local base offset. The last of the result is the last spec defined.
pub fn define_side_metadata_specs(defs: &[SideMetadataSpecDef]) -> (r: Vec<SideMetadataSpec>)
    requires
        0 < defs@.len() <= 1024,
        forall|i: int| 0 <= i < defs@.len() ==> (#[trigger] defs@[i]).wf(),
    ensures
        laid_out(defs@, r@, if defs@[0].is_global { 0 } else { 0x200_0400_0000 }),
{
    proof {
        lemma2_to64();
        lemma2_to64_rest();
    }
    let base = if defs[0].is_global {
        global_side_metadata_base_offset()
    } else {
        local_side_metadata_base_offset()
    };
    lay_out_specs(defs, base.addr_value())
}

/// The address of the valid-object bits.
pub fn vo_bit_side_metadata_addr() -> (r: Address)
    ensures
        r == 0,
{
    vo_bit_spec().get_absolute_offset()
}

/// The address where the side metadata of the VM binding starts: just after
/// the core's global specs.
pub fn global_side_metadata_vm_base_address() -> (r: Address)
    ensures
        r == 0x200_0400_0000,
{
    last_global_side_metadata_spec().upper_bound_address_for_contiguous()
}

/// The largest end offset of the side metadata specs in `specs` (0 for none).
pub open spec fn upper_bound_of(specs: Seq<SideMetadataSpec>) -> int
    decreases specs.len(),
{
    if specs.len() == 0 {
        0
    } else {
        let prev = upper_bound_of(specs.drop_last());
        let end = specs.last().offset.value_spec() + specs.last().range_size_spec();
        if end > prev { end } else { prev }
    }
}

/// The end offset of the side metadata of the VM binding: the largest end of
/// its side metadata specs, and 0 if it keeps none on the side.
pub fn set_vm_side_metadata_specs(specs: &[SideMetadataSpec]) -> (r: u64)
    requires
        forall|i: int| 0 <= i < specs@.len() ==> (#[trigger] specs@[i]).wf()
            && specs@[i].offset.value_spec() + specs@[i].range_size_spec() <= u64::MAX,
    ensures
        r == upper_bound_of(specs@),
{
    let mut upper_bound: u64 = 0;
    let mut i: usize = 0;
    while i < specs.len()
        invariant
            i <= specs@.len(),
            forall|j: int| 0 <= j < specs@.len() ==> (#[trigger] specs@[j]).wf()
                && specs@[j].offset.value_spec() + specs@[j].range_size_spec() <= u64::MAX,
            upper_bound == upper_bound_of(specs@.subrange(0, i as int)),
        decreases specs@.len() - i,
    {
        proof {
            assert(specs@.subrange(0, i + 1).drop_last() =~= specs@.subrange(0, i as int));
        }
        let end = specs[i].upper_bound_offset().addr_value();
        if end > upper_bound {
            upper_bound = end;
        }
        i = i + 1;
    }
    proof {
        assert(specs@.subrange(0, specs@.len() as int) =~= specs@);
    }
    upper_bound
}

/// The side metadata of a VM binding's metadata specs: the end offset of those
/// kept on the side, which the side metadata base is then reserved for.
pub fn initialize_side_metadata(vm_specs: &[MetadataSpec]) -> (r: u64)
    requires
        forall|i: int| 0 <= i < vm_specs@.len() && (#[trigger] vm_specs@[i]) is OnSide ==>
            vm_specs@[i]->OnSide_0.wf() && vm_specs@[i]->OnSide_0.offset.value_spec() + vm_specs@[i]->OnSide_0.range_size_spec() <= u64::MAX,
    ensures
        r == upper_bound_of(vm_specs@.filter(|s: MetadataSpec| s is OnSide).map_values(|s: MetadataSpec| s->OnSide_0)),
{
    let side = extract_side_metadata(vm_specs);
    proof {
        let f = vm_specs@.filter(|s: MetadataSpec| s is OnSide);
        assert forall|i: int| 0 <= i < side@.len() implies (#[trigger] side@[i]).wf()
            && side@[i].offset.value_spec() + side@[i].range_size_spec() <= u64::MAX by {
            assert(f.contains(f[i]));
            vm_specs@.lemma_filter_contains_rev(|s: MetadataSpec| s is OnSide, f[i]);
            broadcast use vstd::seq_lib::group_filter_ensures;
            let j = choose|j: int| 0 <= j < vm_specs@.len() && vm_specs@[j] == f[i];
            assert(vm_specs@[j] is OnSide);
        }
    }
    set_vm_side_metadata_specs(side.as_slice())
}

} // verus!
