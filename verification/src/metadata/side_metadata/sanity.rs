//! Sanity checks of side metadata: that the specs of the plan and its
//! policies fit in the address space and do not overlap, and (for debugging)
//! that the values read from side metadata are those that were written.
use vstd::prelude::*;
use vstd::string::StringSliceAdditionalSpecFns;
use vstd::arithmetic::power2::{pow2, lemma2_to64, lemma2_to64_rest, lemma_pow2_strictly_increases};
use crate::address::Address;
use crate::conversions::{align_down_spec, raw_align_down};
use super::spec::{SideMetadataSpec, metadata_address_range_size, pow2_u64};
use super::helpers::address_to_meta_address;
use super::context::SideMetadataContext;

verus! {

/// Why a sanity check failed.
#[derive(Clone, Copy, Debug, PartialEq, Eq, Structural)]
pub enum SanityError {
    /// The global specs need more than their share of the address space.
    NotEnoughGlobalSpace,
    /// A local spec needs more than its share of the address space.
    LocalSpecTooBig,
    /// The local specs need more than their share of a chunk.
    NotEnoughLocalSpacePerChunk,
    /// Two different specs have overlapping metadata ranges.
    Overlap,
    /// The global specs differ from those checked before.
    GlobalSpecsChanged,
    /// A policy-specific spec is among the global specs.
    LocalSpecInGlobalSpecs,
    /// A global spec is among the policy-specific specs.
    GlobalSpecInLocalSpecs,
    /// The specs of a policy differ from those checked before.
    LocalSpecsChanged,
    /// The spec was never checked.
    InvalidSpec,
    /// The metadata address is beyond the metadata range of the spec.
    AddressOutOfBound,
    /// A value read from side metadata is not the one that was written.
    ValueMismatch,
}

/// Two names are the same string.
pub open spec fn same_name(a: &str, b: &str) -> bool {
    a.spec_bytes() == b.spec_bytes()
}

/// Two specs are equal, field by field.
pub open spec fn spec_eq(a: SideMetadataSpec, b: SideMetadataSpec) -> bool {
    &&& same_name(a.name, b.name)
    &&& a.is_global == b.is_global
    &&& a.offset.value_spec() == b.offset.value_spec()
    &&& a.log_num_of_bits == b.log_num_of_bits
    &&& a.log_bytes_in_region == b.log_bytes_in_region
}

/// The two names are the same string.
pub fn name_eq(a: &str, b: &str) -> (r: bool)
    ensures
        r == same_name(a, b),
{
    let x = a.as_bytes();
    let y = b.as_bytes();
    if x.len() != y.len() {
        return false;
    }
    let mut i: usize = 0;
    while i < x.len()
        invariant
            x@ == a.spec_bytes(),
            y@ == b.spec_bytes(),
            x@.len() == y@.len(),
            i <= x@.len(),
            forall|j: int| 0 <= j < i ==> x@[j] == y@[j],
        decreases x@.len() - i,
    {
        if x[i] != y[i] {
            return false;
        }
        i = i + 1;
    }
    proof {
        assert(x@ =~= y@);
    }
    true
}

/// The two specs are equal, field by field.
pub fn spec_equal(a: &SideMetadataSpec, b: &SideMetadataSpec) -> (r: bool)
    ensures
        r == spec_eq(*a, *b),
{
    name_eq(a.name, b.name) && a.is_global == b.is_global && a.get_absolute_offset() == b.get_absolute_offset()
        && a.log_num_of_bits == b.log_num_of_bits && a.log_bytes_in_region == b.log_bytes_in_region
}

/// `specs` contains a spec equal to `s`.
pub open spec fn contains_spec(specs: Seq<SideMetadataSpec>, s: SideMetadataSpec) -> bool {
    exists|i: int| 0 <= i < specs.len() && spec_eq(specs[i], s)
}

fn vec_contains_spec(specs: &[SideMetadataSpec], s: &SideMetadataSpec) -> (r: bool)
    ensures
        r == contains_spec(specs@, *s),
{
    let mut i: usize = 0;
    while i < specs.len()
        invariant
            i <= specs@.len(),
            forall|j: int| 0 <= j < i ==> !spec_eq(specs@[j], *s),
        decreases specs@.len() - i,
    {
        if spec_equal(&specs[i], s) {
            return true;
        }
        i = i + 1;
    }
    false
}

/// The end of the metadata range of a spec.
pub open spec fn range_end(s: SideMetadataSpec) -> int {
    s.offset.value_spec() + s.range_size_spec()
}

/// The metadata ranges of the two specs intersect.
pub open spec fn overlaps(a: SideMetadataSpec, b: SideMetadataSpec) -> bool {
    !(a.offset.value_spec() >= range_end(b) || b.offset.value_spec() >= range_end(a))
}

/// The metadata address `x` lies in the metadata range of `s`.
pub open spec fn in_meta_range(s: SideMetadataSpec, x: int) -> bool {
    s.offset.value_spec() <= x < range_end(s)
}

/// Two specs overlap exactly when some metadata address lies in both of
/// their ranges; so overlapping does not depend on their order.
pub proof fn lemma_overlap_is_intersection(a: SideMetadataSpec, b: SideMetadataSpec)
    requires
        spec_ok(a),
        spec_ok(b),
    ensures
        overlaps(a, b) <==> exists|x: int| #[trigger] in_meta_range(a, x) && in_meta_range(b, x),
        overlaps(a, b) == overlaps(b, a),
{
    vstd::arithmetic::power2::lemma_pow2_pos((super::spec::log_arch_address_space() - a.rshift_spec()) as nat);
    vstd::arithmetic::power2::lemma_pow2_pos((super::spec::log_arch_address_space() - b.rshift_spec()) as nat);
    if overlaps(a, b) {
        let x = if a.offset.value_spec() >= b.offset.value_spec() { a.offset.value_spec() as int } else { b.offset.value_spec() as int };
        assert(in_meta_range(a, x) && in_meta_range(b, x));
    }
}

/// A spec laid out after another (at the end of its metadata range, where
/// `SideMetadataOffset::layout_after` puts it) does not overlap it.
pub proof fn lemma_layout_after_no_overlap(a: SideMetadataSpec, b: SideMetadataSpec)
    requires
        b.offset.value_spec() == range_end(a),
    ensures
        !overlaps(a, b),
        !overlaps(b, a),
{
}

/// The spec is well formed and its metadata range ends within the address space.
pub open spec fn spec_ok(s: SideMetadataSpec) -> bool {
    s.wf() && range_end(s) <= u64::MAX
}

/// Every spec of `specs` is well formed and ends within the address space.
pub open spec fn specs_ok(specs: Seq<SideMetadataSpec>) -> bool {
    forall|i: int| 0 <= i < specs.len() ==> spec_ok(#[trigger] specs[i])
}

/// Check that the metadata ranges of two specs do not overlap.
pub fn verify_no_overlap_contiguous(spec_1: &SideMetadataSpec, spec_2: &SideMetadataSpec) -> (r: Result<(), SanityError>)
    requires
        spec_ok(*spec_1),
        spec_ok(*spec_2),
    ensures
        r == (if overlaps(*spec_1, *spec_2) { Err::<(), SanityError>(SanityError::Overlap) } else { Ok(()) }),
        r is Err <==> exists|x: int| #[trigger] in_meta_range(*spec_1, x) && in_meta_range(*spec_2, x),
{
    proof {
        lemma_overlap_is_intersection(*spec_1, *spec_2);
    }
    let end_1 = spec_1.get_absolute_offset() + metadata_address_range_size(spec_1);
    let end_2 = spec_2.get_absolute_offset() + metadata_address_range_size(spec_2);
    if !(spec_1.get_absolute_offset() >= end_2 || spec_2.get_absolute_offset() >= end_1) {
        return Err(SanityError::Overlap);
    }
    Ok(())
}

/// The total size of the metadata ranges of `specs`.
pub open spec fn total_range_size(specs: Seq<SideMetadataSpec>) -> nat
    decreases specs.len(),
{
    if specs.len() == 0 {
        0
    } else {
        total_range_size(specs.drop_last()) + specs.last().range_size_spec()
    }
}

proof fn lemma_total_range_size_prefix(specs: Seq<SideMetadataSpec>, k: int)
    requires
        0 <= k <= specs.len(),
    ensures
        total_range_size(specs.subrange(0, k)) <= total_range_size(specs),
    decreases specs.len(),
{
    if k < specs.len() {
        assert(specs.drop_last().subrange(0, k) =~= specs.subrange(0, k));
        lemma_total_range_size_prefix(specs.drop_last(), k);
    } else {
        assert(specs.subrange(0, k) =~= specs);
    }
}

/// Check that the global specs fit in their half of the address space.
pub fn verify_global_specs_total_size(g_specs: &[SideMetadataSpec]) -> (r: Result<(), SanityError>)
    requires
        forall|i: int| 0 <= i < g_specs@.len() ==> (#[trigger] g_specs@[i]).wf(),
    ensures
        r == (if total_range_size(g_specs@) <= pow2(46) { Ok::<(), SanityError>(()) } else { Err(SanityError::NotEnoughGlobalSpace) }),
{
    proof {
        lemma2_to64();
        lemma2_to64_rest();
    }
    let bound = pow2_u64(46);
    let mut total_size: u64 = 0;
    let mut i: usize = 0;
    while i < g_specs.len()
        invariant
            i <= g_specs@.len(),
            bound == pow2(46),
            pow2(46) == 0x4000_0000_0000,
            pow2(47) == 0x8000_0000_0000,
            forall|j: int| 0 <= j < g_specs@.len() ==> (#[trigger] g_specs@[j]).wf(),
            total_size == total_range_size(g_specs@.subrange(0, i as int)),
            total_size <= bound,
        decreases g_specs@.len() - i,
    {
        proof {
            assert(g_specs@.subrange(0, i + 1).drop_last() =~= g_specs@.subrange(0, i as int));
            lemma_range_bound(g_specs@[i as int]);
        }
        total_size = total_size + metadata_address_range_size(&g_specs[i]);
        i = i + 1;
        if total_size > bound {
            proof {
                lemma_total_range_size_prefix(g_specs@, i as int);
            }
            return Err(SanityError::NotEnoughGlobalSpace);
        }
    }
    proof {
        assert(g_specs@.subrange(0, g_specs@.len() as int) =~= g_specs@);
    }
    Ok(())
}

/// The side metadata of a spec covers at most `2^47` bytes.
proof fn lemma_range_bound(spec: SideMetadataSpec)
    requires
        spec.wf(),
    ensures
        spec.range_size_spec() <= pow2(47),
{
    if spec.rshift_spec() > 0 {
        lemma_pow2_strictly_increases((47 - spec.rshift_spec()) as nat, 47);
    }
}

/// Check that each local spec fits in its half of the address space.
pub fn verify_local_specs_size(l_specs: &[SideMetadataSpec]) -> (r: Result<(), SanityError>)
    requires
        forall|i: int| 0 <= i < l_specs@.len() ==> (#[trigger] l_specs@[i]).wf(),
    ensures
        r == (if forall|i: int| 0 <= i < l_specs@.len() ==> (#[trigger] l_specs@[i]).range_size_spec() <= pow2(46) {
            Ok::<(), SanityError>(())
        } else {
            Err(SanityError::LocalSpecTooBig)
        }),
{
    let bound = pow2_u64(46);
    let mut i: usize = 0;
    while i < l_specs.len()
        invariant
            i <= l_specs@.len(),
            bound == pow2(46),
            forall|j: int| 0 <= j < l_specs@.len() ==> (#[trigger] l_specs@[j]).wf(),
            forall|j: int| 0 <= j < i ==> (#[trigger] l_specs@[j]).range_size_spec() <= pow2(46),
        decreases l_specs@.len() - i,
    {
        if metadata_address_range_size(&l_specs[i]) > bound {
            return Err(SanityError::LocalSpecTooBig);
        }
        i = i + 1;
    }
    Ok(())
}

/// The bytes of metadata per chunk (of `2^22` bytes) for a chunked spec.
pub open spec fn bytes_per_chunk_spec(log_bytes_in_region: nat, log_num_of_bits: nat) -> nat {
    pow2((22 - 3 + log_num_of_bits - log_bytes_in_region) as nat)
}

/// The bytes of metadata per chunk for a spec whose metadata is kept per chunk.
pub fn metadata_bytes_per_chunk(log_bytes_in_region: usize, log_num_of_bits: usize) -> (r: u64)
    requires
        19 + log_num_of_bits <= usize::MAX,
        log_bytes_in_region <= 19 + log_num_of_bits,
        19 + log_num_of_bits - log_bytes_in_region < 64,
    ensures
        r == bytes_per_chunk_spec(log_bytes_in_region as nat, log_num_of_bits as nat),
{
    pow2_u64((19 + log_num_of_bits - log_bytes_in_region) as u64)
}

/// The total metadata bytes per chunk of the specs.
pub open spec fn total_bytes_per_chunk(specs: Seq<SideMetadataSpec>) -> nat
    decreases specs.len(),
{
    if specs.len() == 0 {
        0
    } else {
        total_bytes_per_chunk(specs.drop_last())
            + bytes_per_chunk_spec(specs.last().log_bytes_in_region as nat, specs.last().log_num_of_bits as nat)
    }
}

proof fn lemma_total_bytes_per_chunk_prefix(specs: Seq<SideMetadataSpec>, k: int)
    requires
        0 <= k <= specs.len(),
    ensures
        total_bytes_per_chunk(specs.subrange(0, k)) <= total_bytes_per_chunk(specs),
    decreases specs.len(),
{
    if k < specs.len() {
        assert(specs.drop_last().subrange(0, k) =~= specs.subrange(0, k));
        lemma_total_bytes_per_chunk_prefix(specs.drop_last(), k);
    } else {
        assert(specs.subrange(0, k) =~= specs);
    }
}

/// Check that the local specs, when their metadata is kept per chunk (as on
/// 32-bit targets), fit together in an eighth of a chunk.
pub fn verify_local_specs_size_per_chunk(l_specs: &[SideMetadataSpec]) -> (r: Result<(), SanityError>)
    requires
        forall|i: int| 0 <= i < l_specs@.len() ==> (#[trigger] l_specs@[i]).log_bytes_in_region <= 19 + l_specs@[i].log_num_of_bits
            && l_specs@[i].log_num_of_bits <= 6,
    ensures
        r == (if total_bytes_per_chunk(l_specs@) <= pow2(19) { Ok::<(), SanityError>(()) } else { Err(SanityError::NotEnoughLocalSpacePerChunk) }),
{
    proof {
        lemma2_to64();
    }
    let bound = pow2_u64(19);
    let mut total_size: u64 = 0;
    let mut i: usize = 0;
    while i < l_specs.len()
        invariant
            i <= l_specs@.len(),
            bound == pow2(19),
            pow2(19) == 0x8_0000,
            pow2(25) == 0x200_0000,
            forall|j: int| 0 <= j < l_specs@.len() ==> (#[trigger] l_specs@[j]).log_bytes_in_region <= 19 + l_specs@[j].log_num_of_bits
                && l_specs@[j].log_num_of_bits <= 6,
            total_size == total_bytes_per_chunk(l_specs@.subrange(0, i as int)),
            total_size <= bound,
        decreases l_specs@.len() - i,
    {
        proof {
            assert(l_specs@.subrange(0, i + 1).drop_last() =~= l_specs@.subrange(0, i as int));
            let e = (19 + l_specs@[i as int].log_num_of_bits - l_specs@[i as int].log_bytes_in_region) as nat;
            if e < 25 {
                lemma_pow2_strictly_increases(e, 25);
            }
        }
        let b = metadata_bytes_per_chunk(l_specs[i].log_bytes_in_region, l_specs[i].log_num_of_bits);
        total_size = total_size + b;
        i = i + 1;
        if total_size > bound {
            proof {
                lemma_total_bytes_per_chunk_prefix(l_specs@, i as int);
            }
            return Err(SanityError::NotEnoughLocalSpacePerChunk);
        }
    }
    proof {
        assert(l_specs@.subrange(0, l_specs@.len() as int) =~= l_specs@);
    }
    Ok(())
}

/// Two different specs of `specs` have overlapping metadata ranges.
pub open spec fn has_overlap(specs: Seq<SideMetadataSpec>) -> bool {
    exists|i: int, j: int| 0 <= i < specs.len() && 0 <= j < specs.len()
        && !spec_eq(specs[i], specs[j]) && overlaps(specs[i], specs[j])
}

/// Check that no two different specs of `specs` overlap.
fn verify_no_overlaps(specs: &[SideMetadataSpec]) -> (r: Result<(), SanityError>)
    requires
        specs_ok(specs@),
    ensures
        r == (if has_overlap(specs@) { Err::<(), SanityError>(SanityError::Overlap) } else { Ok(()) }),
{
    let mut i: usize = 0;
    while i < specs.len()
        invariant
            i <= specs@.len(),
            specs_ok(specs@),
            forall|a: int, b: int| 0 <= a < i && 0 <= b < specs@.len()
                ==> !(!spec_eq(specs@[a], specs@[b]) && overlaps(specs@[a], specs@[b])),
        decreases specs@.len() - i,
    {
        let mut j: usize = 0;
        while j < specs.len()
            invariant
                i < specs@.len(),
                j <= specs@.len(),
                specs_ok(specs@),
                forall|a: int, b: int| 0 <= a < i && 0 <= b < specs@.len()
                    ==> !(!spec_eq(specs@[a], specs@[b]) && overlaps(specs@[a], specs@[b])),
                forall|b: int| 0 <= b < j ==> !(!spec_eq(specs@[i as int], specs@[b]) && overlaps(specs@[i as int], specs@[b])),
            decreases specs@.len() - j,
        {
            if !spec_equal(&specs[i], &specs[j]) {
                proof {
                    assert(spec_ok(specs@[i as int]) && spec_ok(specs@[j as int]));
                }
                if verify_no_overlap_contiguous(&specs[i], &specs[j]).is_err() {
                    return Err(SanityError::Overlap);
                }
            }
            j = j + 1;
        }
        i = i + 1;
    }
    Ok(())
}

/// The global specs are ok: they fit in their half of the address space, and
/// no two different ones overlap.
pub open spec fn global_specs_result(g_specs: Seq<SideMetadataSpec>) -> Result<(), SanityError> {
    if total_range_size(g_specs) > pow2(46) {
        Err(SanityError::NotEnoughGlobalSpace)
    } else if has_overlap(g_specs) {
        Err(SanityError::Overlap)
    } else {
        Ok(())
    }
}

/// Check the global specs: size first, then overlaps.
pub fn verify_global_specs(g_specs: &[SideMetadataSpec]) -> (r: Result<(), SanityError>)
    requires
        specs_ok(g_specs@),
    ensures
        r == global_specs_result(g_specs@),
{
    assert forall|i: int| 0 <= i < g_specs@.len() implies (#[trigger] g_specs@[i]).wf() by {
        assert(spec_ok(g_specs@[i]));
    }
    verify_global_specs_total_size(g_specs)?;
    verify_no_overlaps(g_specs)
}

/// The local specs are ok: each fits in its half of the address space, and
/// no two different ones overlap.
pub open spec fn local_specs_result(l_specs: Seq<SideMetadataSpec>) -> Result<(), SanityError> {
    if exists|i: int| 0 <= i < l_specs.len() && (#[trigger] l_specs[i]).range_size_spec() > pow2(46) {
        Err(SanityError::LocalSpecTooBig)
    } else if has_overlap(l_specs) {
        Err(SanityError::Overlap)
    } else {
        Ok(())
    }
}

/// Check the local specs: sizes first, then overlaps.
pub fn verify_local_specs(l_specs: &[SideMetadataSpec]) -> (r: Result<(), SanityError>)
    requires
        specs_ok(l_specs@),
    ensures
        r == local_specs_result(l_specs@),
{
    assert forall|i: int| 0 <= i < l_specs@.len() implies (#[trigger] l_specs@[i]).wf() by {
        assert(spec_ok(l_specs@[i]));
    }
    verify_local_specs_size(l_specs)?;
    verify_no_overlaps(l_specs)
}


/// The name under which the global specs are registered.
pub fn global_meta_name() -> (r: &'static str)
    ensures
        r@ == "Global"@,
{
    "Global"
}

/// The bytes of the name that the global specs are registered under.
pub open spec fn global_bytes() -> Seq<u8> {
    vstd::utf8::encode_utf8("Global"@)
}

/// The first entry of `map` registered under `name`.
pub open spec fn lookup(map: Seq<(Seq<u8>, Seq<SideMetadataSpec>)>, name: Seq<u8>) -> Option<int>
    decreases map.len(),
{
    if map.len() == 0 {
        None
    } else {
        match lookup(map.drop_last(), name) {
            Some(i) => Some(i),
            None => if map.last().0 == name { Some((map.len() - 1) as int) } else { None },
        }
    }
}

/// The specs registered in `map`: the global ones (`global`) or the policy-specific ones.
pub open spec fn all_specs(map: Seq<(Seq<u8>, Seq<SideMetadataSpec>)>, global: bool) -> Seq<SideMetadataSpec>
    decreases map.len(),
{
    if map.len() == 0 {
        Seq::empty()
    } else {
        let prev = all_specs(map.drop_last(), global);
        if (map.last().0 == global_bytes()) == global { prev + map.last().1 } else { prev }
    }
}

/// The first problem among `specs`: a spec whose `is_global` is not
/// `expect_global`, or (unless `first`) one that `old` does not contain.
pub open spec fn scan_specs(specs: Seq<SideMetadataSpec>, expect_global: bool, first: bool, old: Seq<SideMetadataSpec>) -> Option<SanityError>
    decreases specs.len(),
{
    if specs.len() == 0 {
        None
    } else if specs[0].is_global != expect_global {
        Some(if expect_global { SanityError::LocalSpecInGlobalSpecs } else { SanityError::GlobalSpecInLocalSpecs })
    } else if !first && !contains_spec(old, specs[0]) {
        Some(if expect_global { SanityError::GlobalSpecsChanged } else { SanityError::LocalSpecsChanged })
    } else {
        scan_specs(specs.skip(1), expect_global, first, old)
    }
}

/// An operation on side metadata, as recorded for checking later reads.
#[derive(Clone, Copy, Debug)]
pub enum ContentOp {
    /// The spec was registered: all its values are 0.
    Register(SideMetadataSpec),
    /// The value of the region that starts at the address was stored.
    Store(SideMetadataSpec, Address, u64),
    /// Every region that starts in `[start, end)` got the value.
    Fill(SideMetadataSpec, Address, Address, u64),
    /// Every region that starts in `[start, end)` got its value under the second spec.
    Copy(SideMetadataSpec, Address, Address, SideMetadataSpec),
}

/// The value that the operations of `log` leave in the metadata of `spec` for
/// the region that starts at `addr`.
pub open spec fn value_at(log: Seq<ContentOp>, spec: SideMetadataSpec, addr: Address) -> u64
    decreases log.len(),
{
    if log.len() == 0 {
        0
    } else {
        let prefix = log.drop_last();
        match log.last() {
            ContentOp::Register(s) => if spec_eq(s, spec) { 0 } else { value_at(prefix, spec, addr) },
            ContentOp::Store(s, a, v) => if spec_eq(s, spec) && a == addr { v } else { value_at(prefix, spec, addr) },
            ContentOp::Fill(s, start, end, v) => if spec_eq(s, spec) && start <= addr < end { v } else { value_at(prefix, spec, addr) },
            ContentOp::Copy(s, start, end, src) => if spec_eq(s, spec) && start <= addr < end {
                value_at(prefix, src, addr)
            } else {
                value_at(prefix, spec, addr)
            },
        }
    }
}

/// `spec` was registered in `log`.
pub open spec fn registered(log: Seq<ContentOp>, spec: SideMetadataSpec) -> bool {
    exists|i: int| 0 <= i < log.len() && ((#[trigger] log[i]) matches ContentOp::Register(s) && spec_eq(s, spec))
}

/// The registration of each spec of `specs`, in order.
pub open spec fn registrations(specs: Seq<SideMetadataSpec>) -> Seq<ContentOp> {
    specs.map_values(|s: SideMetadataSpec| ContentOp::Register(s))
}

/// The specs registered for the plan and its policies, and a record of the
/// side metadata operations to check reads against.
pub struct SideMetadataSanity {
    specs_sanity_map: Vec<(&'static str, Vec<SideMetadataSpec>)>,
    content: Vec<ContentOp>,
}

impl SideMetadataSanity {
    /// The specs registered under each name (global specs under "Global").
    pub closed spec fn specs_map(&self) -> Seq<(Seq<u8>, Seq<SideMetadataSpec>)> {
        self.specs_sanity_map@.map_values(|e: (&'static str, Vec<SideMetadataSpec>)| (e.0.spec_bytes(), e.1@))
    }

    /// The side metadata operations recorded so far.
    pub closed spec fn content_log(&self) -> Seq<ContentOp> {
        self.content@
    }

    /// Every registered spec is well formed and ends within the address space.
    pub open spec fn wf(&self) -> bool {
        forall|i: int| 0 <= i < self.specs_map().len() ==> specs_ok(#[trigger] self.specs_map()[i].1)
    }

    /// No specs are registered and nothing is recorded.
    pub fn new() -> (r: Self)
        ensures
            r.specs_map().len() == 0,
            r.content_log().len() == 0,
            r.wf(),
    {
        let r = SideMetadataSanity { specs_sanity_map: Vec::new(), content: Vec::new() };
        proof {
            assert(r.specs_map() =~= Seq::empty());
        }
        r
    }

    /// Forget all registered specs and recorded operations.
    pub fn reset(&mut self)
        ensures
            final(self).specs_map().len() == 0,
            final(self).content_log().len() == 0,
            final(self).wf(),
    {
        self.specs_sanity_map = Vec::new();
        self.content = Vec::new();
        proof {
            assert(self.specs_map() =~= Seq::empty());
        }
    }

    fn lookup_name(&self, name: &str) -> (r: Option<usize>)
        ensures
            match lookup(self.specs_map(), name.spec_bytes()) {
                Some(i) => 0 <= i < self.specs_sanity_map@.len() && (r matches Some(j) && j as int == i),
                None => r is None,
            },
            r matches Some(i) ==> i < self.specs_sanity_map@.len(),
    {
        let ghost map = self.specs_map();
        proof {
            lemma_lookup_range(map, name.spec_bytes());
        }
        let mut i: usize = 0;
        while i < self.specs_sanity_map.len()
            invariant
                map == self.specs_map(),
                i <= map.len(),
                lookup(map.subrange(0, i as int), name.spec_bytes()) is None,
            decreases map.len() - i,
        {
            proof {
                assert(map.subrange(0, i + 1).drop_last() =~= map.subrange(0, i as int));
            }
            if name_eq(self.specs_sanity_map[i].0, name) {
                proof {
                    lemma_lookup_prefix(map, name.spec_bytes(), i + 1);
                }
                return Some(i);
            }
            i = i + 1;
        }
        proof {
            assert(map.subrange(0, map.len() as int) =~= map);
        }
        None
    }

    /// The registered specs: the global ones (`global`) or the policy-specific ones.
    fn get_all_specs(&self, global: bool) -> (r: Vec<SideMetadataSpec>)
        ensures
            r@ == all_specs(self.specs_map(), global),
    {
        let ghost map = self.specs_map();
        let g = global_meta_name();
        let mut specs: Vec<SideMetadataSpec> = Vec::new();
        let mut i: usize = 0;
        while i < self.specs_sanity_map.len()
            invariant
                map == self.specs_map(),
                g@ == "Global"@,
                i <= map.len(),
                specs@ == all_specs(map.subrange(0, i as int), global),
            decreases map.len() - i,
        {
            proof {
                assert(map.subrange(0, i + 1).drop_last() =~= map.subrange(0, i as int));
            }
            if name_eq(self.specs_sanity_map[i].0, g) == global {
                let entry = &self.specs_sanity_map[i].1;
                let ghost before = specs@;
                let mut j: usize = 0;
                while j < entry.len()
                    invariant
                        j <= entry@.len(),
                        specs@ == before + entry@.subrange(0, j as int),
                    decreases entry@.len() - j,
                {
                    specs.push(entry[j]);
                    j = j + 1;
                    proof {
                        assert(before + entry@.subrange(0, j as int) =~= specs@);
                    }
                }
                proof {
                    assert(entry@.subrange(0, entry@.len() as int) =~= entry@);
                }
            }
            i = i + 1;
        }
        proof {
            assert(map.subrange(0, map.len() as int) =~= map);
        }
        specs
    }
}

/// The specs map after registering the global specs `cg` (if none are registered yet).
pub open spec fn with_global(m: Seq<(Seq<u8>, Seq<SideMetadataSpec>)>, cg: Seq<SideMetadataSpec>) -> Seq<(Seq<u8>, Seq<SideMetadataSpec>)> {
    if lookup(m, global_bytes()) is None { m.push((global_bytes(), cg)) } else { m }
}

/// The specs map after registering the specs `cl` of the policy named `p` (if it has none yet).
pub open spec fn with_local(m: Seq<(Seq<u8>, Seq<SideMetadataSpec>)>, cl: Seq<SideMetadataSpec>, p: Seq<u8>) -> Seq<(Seq<u8>, Seq<SideMetadataSpec>)> {
    if lookup(m, p) is None { m.push((p, cl)) } else { m }
}

/// The specs registered under `name` in `m` (none if the name is not registered).
pub open spec fn registered_under(m: Seq<(Seq<u8>, Seq<SideMetadataSpec>)>, name: Seq<u8>) -> Seq<SideMetadataSpec> {
    match lookup(m, name) {
        Some(i) => m[i].1,
        None => Seq::empty(),
    }
}

/// The outcome of checking the context with global specs `cg` and local specs
/// `cl` of the policy named `p` against the specs registered in `m`: the global
/// specs are checked when first registered and must not change after; the
/// local specs must be local and not change for the policy; and all the local
/// specs together must fit and not overlap.
pub open spec fn context_result(m: Seq<(Seq<u8>, Seq<SideMetadataSpec>)>, cg: Seq<SideMetadataSpec>, cl: Seq<SideMetadataSpec>, p: Seq<u8>) -> Result<(), SanityError> {
    let first_g = lookup(m, global_bytes()) is None;
    let old_g = registered_under(m, global_bytes());
    let m1 = with_global(m, cg);
    let first_l = lookup(m1, p) is None;
    let old_l = registered_under(m1, p);
    if first_g && global_specs_result(cg) is Err {
        global_specs_result(cg)
    } else if !first_g && old_g.len() != cg.len() {
        Err(SanityError::GlobalSpecsChanged)
    } else if scan_specs(cg, true, first_g, old_g) is Some {
        Err(scan_specs(cg, true, first_g, old_g)->0)
    } else if scan_specs(cl, false, first_l, old_l) is Some {
        Err(scan_specs(cl, false, first_l, old_l)->0)
    } else {
        local_specs_result(all_specs(with_local(m1, cl, p), false))
    }
}

/// The operations recorded by a successful check: the registration of the
/// specs registered for the first time.
pub open spec fn context_registrations(m: Seq<(Seq<u8>, Seq<SideMetadataSpec>)>, cg: Seq<SideMetadataSpec>, cl: Seq<SideMetadataSpec>, p: Seq<u8>) -> Seq<ContentOp> {
    let m1 = with_global(m, cg);
    (if lookup(m, global_bytes()) is None { registrations(cg) } else { Seq::empty() })
        + (if lookup(m1, p) is None { registrations(cl) } else { Seq::empty() })
}

/// The specs of a map whose specs are all fine are fine.
proof fn lemma_all_specs_ok(m: Seq<(Seq<u8>, Seq<SideMetadataSpec>)>, global: bool)
    requires
        forall|i: int| 0 <= i < m.len() ==> specs_ok(#[trigger] m[i].1),
    ensures
        specs_ok(all_specs(m, global)),
    decreases m.len(),
{
    if m.len() > 0 {
        let prev = m.drop_last();
        assert forall|i: int| 0 <= i < prev.len() implies specs_ok(#[trigger] prev[i].1) by {
            assert(prev[i] == m[i]);
        }
        lemma_all_specs_ok(prev, global);
        assert(specs_ok(m[m.len() - 1].1));
    }
}

/// The first problem among `specs`, as `scan_specs` defines it.
fn scan_specs_exec(specs: &[SideMetadataSpec], expect_global: bool, first: bool, old: &[SideMetadataSpec]) -> (r: Option<SanityError>)
    ensures
        r == scan_specs(specs@, expect_global, first, old@),
{
    let mut i: usize = 0;
    assert(specs@.skip(0) =~= specs@);
    while i < specs.len()
        invariant
            i <= specs@.len(),
            scan_specs(specs@, expect_global, first, old@) == scan_specs(specs@.skip(i as int), expect_global, first, old@),
        decreases specs@.len() - i,
    {
        let ghost rest = specs@.skip(i as int);
        assert(rest[0] == specs@[i as int]);
        if specs[i].is_global != expect_global {
            return Some(if expect_global { SanityError::LocalSpecInGlobalSpecs } else { SanityError::GlobalSpecInLocalSpecs });
        }
        if !first && !vec_contains_spec(old, &specs[i]) {
            return Some(if expect_global { SanityError::GlobalSpecsChanged } else { SanityError::LocalSpecsChanged });
        }
        proof {
            assert(rest.skip(1) =~= specs@.skip(i + 1));
        }
        i = i + 1;
    }
    None
}

/// A copy of the specs.
fn copy_specs(specs: &[SideMetadataSpec]) -> (r: Vec<SideMetadataSpec>)
    ensures
        r@ == specs@,
{
    let mut v: Vec<SideMetadataSpec> = Vec::new();
    let mut i: usize = 0;
    while i < specs.len()
        invariant
            i <= specs@.len(),
            v@ == specs@.subrange(0, i as int),
        decreases specs@.len() - i,
    {
        v.push(specs[i]);
        i = i + 1;
        proof {
            assert(v@ =~= specs@.subrange(0, i as int));
        }
    }
    proof {
        assert(specs@.subrange(0, specs@.len() as int) =~= specs@);
    }
    v
}

impl SideMetadataSanity {
    /// Record the registration of each of `specs`.
    fn register_all(&mut self, specs: &[SideMetadataSpec])
        ensures
            final(self).content_log() == old(self).content_log() + registrations(specs@),
            final(self).specs_map() == old(self).specs_map(),
    {
        let ghost before = self.content@;
        let mut i: usize = 0;
        while i < specs.len()
            invariant
                i <= specs@.len(),
                self.content@ == before + registrations(specs@.subrange(0, i as int)),
                self.specs_sanity_map@ == old(self).specs_sanity_map@,
            decreases specs@.len() - i,
        {
            self.content.push(ContentOp::Register(specs[i]));
            i = i + 1;
            proof {
                assert(before + registrations(specs@.subrange(0, i as int)) =~= self.content@);
            }
        }
        proof {
            assert(specs@.subrange(0, specs@.len() as int) =~= specs@);
        }
    }

    /// Register the name with the specs.
    fn register_specs(&mut self, name: &'static str, specs: &[SideMetadataSpec])
        ensures
            final(self).specs_map() == old(self).specs_map().push((name.spec_bytes(), specs@)),
            final(self).content_log() == old(self).content_log(),
    {
        let copy = copy_specs(specs);
        self.specs_sanity_map.push((name, copy));
        proof {
            assert(self.specs_map() =~= old(self).specs_map().push((name.spec_bytes(), specs@)));
        }
    }

    /// Check the side metadata specs of a policy (named `policy_name`) and its
    /// plan: the plan's global specs are checked when first seen and must not
    /// change after; a policy's local specs must be local and must not change;
    /// all local specs together must fit and not overlap. On success the specs
    /// seen for the first time are registered; on failure nothing changes.
    pub fn verify_metadata_context(&mut self, policy_name: &'static str, metadata_context: &SideMetadataContext) -> (r: Result<(), SanityError>)
        requires
            old(self).wf(),
            specs_ok(metadata_context.global@),
            specs_ok(metadata_context.local@),
        ensures
            r == context_result(old(self).specs_map(), metadata_context.global@, metadata_context.local@, policy_name.spec_bytes()),
            r is Ok ==> final(self).specs_map() == with_local(with_global(old(self).specs_map(), metadata_context.global@),
                metadata_context.local@, policy_name.spec_bytes()),
            r is Ok ==> final(self).content_log() == old(self).content_log()
                + context_registrations(old(self).specs_map(), metadata_context.global@, metadata_context.local@, policy_name.spec_bytes()),
            r is Err ==> *final(self) == *old(self),
            final(self).wf(),
    {
        let ghost m = self.specs_map();
        let ghost p = policy_name.spec_bytes();
        let ghost cg = metadata_context.global@;
        let ghost cl = metadata_context.local@;
        let g = global_meta_name();
        assert(g.spec_bytes() == global_bytes());
        let gi = self.lookup_name(g);
        let first_g = gi.is_none();
        let empty: Vec<SideMetadataSpec> = Vec::new();
        if first_g {
            let res = verify_global_specs(metadata_context.global.as_slice());
            if res.is_err() {
                return res;
            }
        } else {
            let idx = gi.unwrap();
            assert(lookup(m, global_bytes()) == Some(idx as int));
            assert(m[idx as int].1 == self.specs_sanity_map@[idx as int].1@);
            assert(registered_under(m, global_bytes()) == self.specs_sanity_map@[idx as int].1@);
            if self.specs_sanity_map[idx].1.len() != metadata_context.global.len() {
                return Err(SanityError::GlobalSpecsChanged);
            }
        }
        let old_g: &[SideMetadataSpec] = match gi {
            Some(idx) => self.specs_sanity_map[idx].1.as_slice(),
            None => empty.as_slice(),
        };
        assert(old_g@ == registered_under(m, global_bytes()));
        if let Some(e) = scan_specs_exec(metadata_context.global.as_slice(), true, first_g, old_g) {
            return Err(e);
        }
        let li = self.lookup_name(policy_name);
        let policy_is_global = name_eq(policy_name, g);
        let ghost m1 = with_global(m, cg);
        proof {
            if first_g {
                assert(m1.drop_last() =~= m);
                assert(lookup(m1, p) == if p == global_bytes() { Some(m.len() as int) } else { lookup(m, p) });
            }
        }
        let first_l = li.is_none() && !(first_g && policy_is_global);
        let old_l: &[SideMetadataSpec] = match li {
            Some(idx) => self.specs_sanity_map[idx].1.as_slice(),
            None => if first_g && policy_is_global { metadata_context.global.as_slice() } else { empty.as_slice() },
        };
        assert(first_l == (lookup(m1, p) is None));
        proof {
            if li is Some {
                let idx = li->0 as int;
                assert(lookup(m1, p) == Some(idx));
                assert(m1[idx] == m[idx]);
                assert(m[idx].1 == self.specs_sanity_map@[idx].1@);
            }
        }
        assert(old_l@ == registered_under(m1, p));
        if let Some(e) = scan_specs_exec(metadata_context.local.as_slice(), false, first_l, old_l) {
            return Err(e);
        }
        let mut locals = self.get_all_specs(false);
        if first_l && !policy_is_global {
            let mut j: usize = 0;
            let ghost before = locals@;
            while j < metadata_context.local.len()
                invariant
                    j <= cl.len(),
                    cl == metadata_context.local@,
                    locals@ == before + cl.subrange(0, j as int),
                decreases cl.len() - j,
            {
                locals.push(metadata_context.local[j]);
                j = j + 1;
                proof {
                    assert(before + cl.subrange(0, j as int) =~= locals@);
                }
            }
            proof {
                assert(cl.subrange(0, cl.len() as int) =~= cl);
            }
        }
        proof {
            let m2 = with_local(m1, cl, p);
            if first_g {
                assert(m1.drop_last() =~= m);
                assert(all_specs(m1, false) == all_specs(m, false));
            }
            if first_l {
                assert(m2.drop_last() =~= m1);
            }
            assert(locals@ =~= all_specs(m2, false));
            assert forall|i: int| 0 <= i < m2.len() implies specs_ok(#[trigger] m2[i].1) by {
                if i < m.len() {
                    assert(m2[i] == m[i]);
                }
            }
            lemma_all_specs_ok(m2, false);
        }
        let res = verify_local_specs(locals.as_slice());
        if res.is_err() {
            return res;
        }
        if first_g {
            self.register_specs(g, metadata_context.global.as_slice());
            self.register_all(metadata_context.global.as_slice());
        }
        if first_l {
            self.register_specs(policy_name, metadata_context.local.as_slice());
            self.register_all(metadata_context.local.as_slice());
        }
        proof {
            let m2 = with_local(m1, cl, p);
            assert(self.specs_map() =~= m2);
            assert(self.content_log() =~= old(self).content_log() + context_registrations(m, cg, cl, p));
            assert forall|i: int| 0 <= i < self.specs_map().len() implies specs_ok(#[trigger] self.specs_map()[i].1) by {
                if i < m.len() {
                    assert(m2[i] == m[i]);
                }
            }
        }
        Ok(())
    }
}

/// `val` truncated to a metadata value of `2^log_num_of_bits` bits, if that is
/// narrower than the value type (of `2^type_log2` bits).
pub open spec fn truncated(type_log2: nat, log_num_of_bits: nat, val: u64) -> u64 {
    if log_num_of_bits < type_log2 { (val as nat % pow2(pow2(log_num_of_bits))) as u64 } else { val }
}

/// Truncate `val` to a metadata value of `2^log_num_of_bits` bits, if that is
/// narrower than the value type (of `2^type_log2` bits, at most 64).
pub fn truncate_value(type_log2: u64, log_num_of_bits: u64, val: u64) -> (r: u64)
    requires
        type_log2 <= 6,
    ensures
        r == truncated(type_log2 as nat, log_num_of_bits as nat, val),
{
    if log_num_of_bits < type_log2 {
        let bits = pow2_u64(log_num_of_bits);
        proof {
            lemma2_to64();
            if log_num_of_bits < 5 {
                lemma_pow2_strictly_increases(log_num_of_bits as nat, 5);
            }
            vstd::bits::lemma_u64_low_bits_mask_is_mod(val, bits as nat);
            vstd::bits::lemma_u64_pow2_no_overflow(bits as nat);
        }
        let mask = pow2_u64(bits) - 1;
        val & mask
    } else {
        val
    }
}

/// The start of the region of `spec` that holds `data_addr`.
pub fn align_to_region_start(spec: &SideMetadataSpec, data_addr: Address) -> (r: Address)
    requires
        spec.log_bytes_in_region < 64,
    ensures
        r == align_down_spec(data_addr as int, pow2(spec.log_bytes_in_region as nat) as int),
        r <= data_addr,
{
    raw_align_down(data_addr, pow2_u64(spec.log_bytes_in_region as u64))
}

/// Check that the metadata address of `data_addr` is within the metadata range of `spec`.
pub fn verify_metadata_address_bound(spec: &SideMetadataSpec, data_addr: Address) -> (r: Result<(), SanityError>)
    requires
        spec_ok(*spec),
        spec.meta_addr_fits(data_addr as int),
    ensures
        r == (if spec.meta_addr_spec(data_addr as int) < range_end(*spec) { Ok::<(), SanityError>(()) } else { Err(SanityError::AddressOutOfBound) }),
{
    let metadata_addr = address_to_meta_address(spec, data_addr);
    let metadata_addr_bound = spec.upper_bound_address_for_contiguous();
    if metadata_addr < metadata_addr_bound {
        Ok(())
    } else {
        Err(SanityError::AddressOutOfBound)
    }
}

/// The outcome of checking a load of `actual` at `data_addr` (a region start).
pub open spec fn load_result(log: Seq<ContentOp>, spec: SideMetadataSpec, data_addr: Address, actual: u64) -> Result<(), SanityError> {
    if spec.meta_addr_spec(data_addr as int) >= range_end(spec) {
        Err(SanityError::AddressOutOfBound)
    } else if !registered(log, spec) {
        Err(SanityError::InvalidSpec)
    } else if value_at(log, spec, data_addr) != actual {
        Err(SanityError::ValueMismatch)
    } else {
        Ok(())
    }
}

impl SideMetadataSanity {
    /// `spec` was registered.
    fn is_registered(&self, spec: &SideMetadataSpec) -> (r: bool)
        ensures
            r == registered(self.content_log(), *spec),
    {
        let mut i: usize = 0;
        while i < self.content.len()
            invariant
                i <= self.content@.len(),
                forall|j: int| 0 <= j < i ==> !((#[trigger] self.content@[j]) matches ContentOp::Register(s) && spec_eq(s, *spec)),
            decreases self.content@.len() - i,
        {
            if let ContentOp::Register(s) = &self.content[i] {
                if spec_equal(s, spec) {
                    return true;
                }
            }
            i = i + 1;
        }
        false
    }

    /// The value that the recorded operations leave in the metadata of `spec`
    /// for the region that starts at `data_addr`.
    pub fn expected_value(&self, spec: &SideMetadataSpec, data_addr: Address) -> (r: u64)
        ensures
            r == value_at(self.content_log(), *spec, data_addr),
    {
        let ghost log = self.content@;
        let mut cur = *spec;
        let mut i: usize = self.content.len();
        assert(log.subrange(0, i as int) =~= log);
        while i > 0
            invariant
                log == self.content@,
                i <= log.len(),
                value_at(log, *spec, data_addr) == value_at(log.subrange(0, i as int), cur, data_addr),
            decreases i,
        {
            let ghost prefix = log.subrange(0, i as int);
            assert(prefix.drop_last() =~= log.subrange(0, i - 1));
            match &self.content[i - 1] {
                ContentOp::Register(s) => {
                    if spec_equal(s, &cur) {
                        return 0;
                    }
                },
                ContentOp::Store(s, a, v) => {
                    if spec_equal(s, &cur) && *a == data_addr {
                        return *v;
                    }
                },
                ContentOp::Fill(s, start, end, v) => {
                    if spec_equal(s, &cur) && *start <= data_addr && data_addr < *end {
                        return *v;
                    }
                },
                ContentOp::Copy(s, start, end, src) => {
                    if spec_equal(s, &cur) && *start <= data_addr && data_addr < *end {
                        cur = *src;
                    }
                },
            }
            i = i - 1;
        }
        0
    }

    /// Check a load of `actual_val` from the metadata of `data_addr`: it must be
    /// the value that the recorded operations left for its region.
    pub fn verify_load(&self, metadata_spec: &SideMetadataSpec, data_addr: Address, actual_val: u64) -> (r: Result<(), SanityError>)
        requires
            spec_ok(*metadata_spec),
            metadata_spec.meta_addr_fits(data_addr as int),
        ensures
            r == load_result(self.content_log(), *metadata_spec,
                align_down_spec(data_addr as int, pow2(metadata_spec.log_bytes_in_region as nat) as int) as u64, actual_val),
    {
        let ghost old_addr = data_addr;
        let data_addr = align_to_region_start(metadata_spec, data_addr);
        proof {
            lemma_meta_addr_monotone(*metadata_spec, data_addr as int, old_addr as int);
        }
        verify_metadata_address_bound(metadata_spec, data_addr)?;
        if !self.is_registered(metadata_spec) {
            return Err(SanityError::InvalidSpec);
        }
        let expected_val = self.expected_value(metadata_spec, data_addr);
        if expected_val != actual_val {
            return Err(SanityError::ValueMismatch);
        }
        Ok(())
    }

    /// Record a store of `metadata` (of a type of `2^type_log2` bits) to the
    /// metadata of `data_addr`, truncated to the metadata's width.
    pub fn verify_store(&mut self, metadata_spec: &SideMetadataSpec, data_addr: Address, metadata: u64, type_log2: u64) -> (r: Result<(), SanityError>)
        requires
            spec_ok(*metadata_spec),
            metadata_spec.meta_addr_fits(data_addr as int),
            type_log2 <= 6,
        ensures
            ({
                let a = align_down_spec(data_addr as int, pow2(metadata_spec.log_bytes_in_region as nat) as int) as u64;
                &&& r == (if metadata_spec.meta_addr_spec(a as int) >= range_end(*metadata_spec) {
                        Err::<(), SanityError>(SanityError::AddressOutOfBound)
                    } else if !registered(old(self).content_log(), *metadata_spec) {
                        Err(SanityError::InvalidSpec)
                    } else {
                        Ok(())
                    })
                &&& r is Ok ==> final(self).content_log() == old(self).content_log().push(ContentOp::Store(*metadata_spec, a,
                        truncated(type_log2 as nat, metadata_spec.log_num_of_bits as nat, metadata)))
                &&& r is Err ==> final(self).content_log() == old(self).content_log()
            }),
            final(self).specs_map() == old(self).specs_map(),
    {
        let ghost old_addr = data_addr;
        let data_addr = align_to_region_start(metadata_spec, data_addr);
        proof {
            lemma_meta_addr_monotone(*metadata_spec, data_addr as int, old_addr as int);
        }
        verify_metadata_address_bound(metadata_spec, data_addr)?;
        let new_val_wrapped = truncate_value(type_log2, metadata_spec.log_num_of_bits as u64, metadata);
        if !self.is_registered(metadata_spec) {
            return Err(SanityError::InvalidSpec);
        }
        self.content.push(ContentOp::Store(*metadata_spec, data_addr, new_val_wrapped));
        Ok(())
    }

    /// Record an update of the metadata of `data_addr` from `old_val` to
    /// `new_val` (of a type of `2^type_log2` bits), checking that `old_val` is
    /// the value that the recorded operations left for its region.
    pub fn verify_update(&mut self, metadata_spec: &SideMetadataSpec, data_addr: Address, old_val: u64, new_val: u64, type_log2: u64) -> (r: Result<(), SanityError>)
        requires
            spec_ok(*metadata_spec),
            metadata_spec.meta_addr_fits(data_addr as int),
            type_log2 <= 6,
        ensures
            ({
                let a = align_down_spec(data_addr as int, pow2(metadata_spec.log_bytes_in_region as nat) as int) as u64;
                &&& r == load_result(old(self).content_log(), *metadata_spec, a, old_val)
                &&& r is Ok ==> final(self).content_log() == old(self).content_log().push(ContentOp::Store(*metadata_spec, a,
                        truncated(type_log2 as nat, metadata_spec.log_num_of_bits as nat, new_val)))
                &&& r is Err ==> final(self).content_log() == old(self).content_log()
            }),
            final(self).specs_map() == old(self).specs_map(),
    {
        let ghost old_addr = data_addr;
        let data_addr = align_to_region_start(metadata_spec, data_addr);
        proof {
            lemma_meta_addr_monotone(*metadata_spec, data_addr as int, old_addr as int);
        }
        verify_metadata_address_bound(metadata_spec, data_addr)?;
        let new_val_wrapped = truncate_value(type_log2, metadata_spec.log_num_of_bits as u64, new_val);
        if !self.is_registered(metadata_spec) {
            return Err(SanityError::InvalidSpec);
        }
        let cur_val = self.expected_value(metadata_spec, data_addr);
        if old_val != cur_val {
            return Err(SanityError::ValueMismatch);
        }
        self.content.push(ContentOp::Store(*metadata_spec, data_addr, new_val_wrapped));
        Ok(())
    }

    /// Record a bulk zeroing of the metadata of `[start, start + size)`.
    pub fn verify_bzero(&mut self, metadata_spec: &SideMetadataSpec, start: Address, size: u64) -> (r: Result<(), SanityError>)
        requires
            metadata_spec.log_bytes_in_region < 64,
            start + size <= u64::MAX,
        ensures
            r == (if registered(old(self).content_log(), *metadata_spec) { Ok::<(), SanityError>(()) } else { Err(SanityError::InvalidSpec) }),
            ({
                let p = pow2(metadata_spec.log_bytes_in_region as nat) as int;
                let s = align_down_spec(start as int, p);
                let e = align_down_spec(start + size, p);
                r is Ok ==> final(self).content_log() == old(self).content_log().push(ContentOp::Fill(*metadata_spec, s as u64, e as u64, 0))
            }),
            r is Err ==> final(self).content_log() == old(self).content_log(),
            final(self).specs_map() == old(self).specs_map(),
    {
        let end = align_to_region_start(metadata_spec, start + size);
        let start = align_to_region_start(metadata_spec, start);
        if !self.is_registered(metadata_spec) {
            return Err(SanityError::InvalidSpec);
        }
        self.content.push(ContentOp::Fill(*metadata_spec, start, end, 0));
        Ok(())
    }

    /// Record a bulk setting (to all ones) of the metadata of `[start, start + size)`.
    pub fn verify_bset(&mut self, metadata_spec: &SideMetadataSpec, start: Address, size: u64) -> (r: Result<(), SanityError>)
        requires
            metadata_spec.log_bytes_in_region < 64,
            metadata_spec.log_num_of_bits <= 5,
            start + size <= u64::MAX,
        ensures
            r == (if registered(old(self).content_log(), *metadata_spec) { Ok::<(), SanityError>(()) } else { Err(SanityError::InvalidSpec) }),
            ({
                let p = pow2(metadata_spec.log_bytes_in_region as nat) as int;
                let s = align_down_spec(start as int, p);
                let e = align_down_spec(start + size, p);
                let max_value = (pow2(pow2(metadata_spec.log_num_of_bits as nat)) - 1) as u64;
                r is Ok ==> final(self).content_log() == old(self).content_log().push(ContentOp::Fill(*metadata_spec, s as u64, e as u64, max_value))
            }),
            r is Err ==> final(self).content_log() == old(self).content_log(),
            final(self).specs_map() == old(self).specs_map(),
    {
        let end = align_to_region_start(metadata_spec, start + size);
        let start = align_to_region_start(metadata_spec, start);
        proof {
            lemma2_to64();
            if metadata_spec.log_num_of_bits < 5 {
                lemma_pow2_strictly_increases(metadata_spec.log_num_of_bits as nat, 5);
            }
        }
        let bits = pow2_u64(metadata_spec.log_num_of_bits as u64);
        let max_value = pow2_u64(bits) - 1;
        if !self.is_registered(metadata_spec) {
            return Err(SanityError::InvalidSpec);
        }
        self.content.push(ContentOp::Fill(*metadata_spec, start, end, max_value));
        Ok(())
    }

    /// Record a bulk copy to the metadata of `dst_spec` of `[start, start + size)`
    /// from that of `src_spec`, which has the same granularity.
    pub fn verify_bcopy(&mut self, dst_spec: &SideMetadataSpec, start: Address, size: u64, src_spec: &SideMetadataSpec) -> (r: Result<(), SanityError>)
        requires
            dst_spec.log_bytes_in_region < 64,
            src_spec.log_num_of_bits == dst_spec.log_num_of_bits,
            src_spec.log_bytes_in_region == dst_spec.log_bytes_in_region,
            start + size <= u64::MAX,
        ensures
            r == (if registered(old(self).content_log(), *src_spec) && registered(old(self).content_log(), *dst_spec) {
                Ok::<(), SanityError>(())
            } else {
                Err(SanityError::InvalidSpec)
            }),
            ({
                let p = pow2(dst_spec.log_bytes_in_region as nat) as int;
                let s = align_down_spec(start as int, p);
                let e = align_down_spec(start + size, p);
                r is Ok ==> final(self).content_log() == old(self).content_log().push(ContentOp::Copy(*dst_spec, s as u64, e as u64, *src_spec))
            }),
            r is Err ==> final(self).content_log() == old(self).content_log(),
            final(self).specs_map() == old(self).specs_map(),
    {
        let end = align_to_region_start(dst_spec, start + size);
        let start = align_to_region_start(dst_spec, start);
        if !self.is_registered(src_spec) || !self.is_registered(dst_spec) {
            return Err(SanityError::InvalidSpec);
        }
        self.content.push(ContentOp::Copy(*dst_spec, start, end, *src_spec));
        Ok(())
    }
}

/// The metadata address grows with the data address, so one that fits for an
/// address fits for every address below it.
pub proof fn lemma_meta_addr_monotone(spec: SideMetadataSpec, a: int, b: int)
    requires
        spec.wf(),
        0 <= a <= b,
    ensures
        spec.meta_addr_spec(a) <= spec.meta_addr_spec(b),
        spec.meta_addr_fits(b) ==> spec.meta_addr_fits(a),
{
    let p = pow2(spec.log_bytes_in_region as nat) as int;
    vstd::arithmetic::power2::lemma_pow2_pos(spec.log_bytes_in_region as nat);
    vstd::arithmetic::div_mod::lemma_div_is_ordered(a, b, p);
    vstd::arithmetic::div_mod::lemma_div_pos_is_pos(a, p);
    if spec.log_num_of_bits <= 3 {
        let q = pow2((3 - spec.log_num_of_bits) as nat) as int;
        vstd::arithmetic::power2::lemma_pow2_pos((3 - spec.log_num_of_bits) as nat);
        vstd::arithmetic::div_mod::lemma_div_is_ordered(spec.region_index(a), spec.region_index(b), q);
    } else {
        let q = pow2((spec.log_num_of_bits - 3) as nat) as int;
        vstd::arithmetic::power2::lemma_pow2_pos((spec.log_num_of_bits - 3) as nat);
        vstd::arithmetic::mul::lemma_mul_inequality(spec.region_index(a), spec.region_index(b), q);
    }
}

/// A name is found at an index of the map.
proof fn lemma_lookup_range(map: Seq<(Seq<u8>, Seq<SideMetadataSpec>)>, name: Seq<u8>)
    ensures
        lookup(map, name) matches Some(i) ==> 0 <= i < map.len() && map[i].0 == name,
    decreases map.len(),
{
    if map.len() > 0 {
        lemma_lookup_range(map.drop_last(), name);
    }
}

/// A name found in a prefix of the map is found at the same index in the map.
proof fn lemma_lookup_prefix(map: Seq<(Seq<u8>, Seq<SideMetadataSpec>)>, name: Seq<u8>, k: int)
    requires
        0 <= k <= map.len(),
        lookup(map.subrange(0, k), name) is Some,
    ensures
        lookup(map, name) == lookup(map.subrange(0, k), name),
    decreases map.len(),
{
    if k < map.len() {
        assert(map.drop_last().subrange(0, k) =~= map.subrange(0, k));
        lemma_lookup_prefix(map.drop_last(), name, k);
    } else {
        assert(map.subrange(0, k) =~= map);
    }
}

} // verus!
