//! The side metadata of a policy (its local specs) together with the plan's
//! global specs: how many pages they reserve, and which metadata address
//! ranges must be mapped for a range of data.
use vstd::prelude::*;
use vstd::arithmetic::power2::pow2;
use crate::address::Address;
use crate::conversions::{align_down_spec, align_up_spec, raw_align_down, raw_align_up};
use crate::memory::MemoryRegion;
use super::spec::{SideMetadataSpec, addr_rshift, pow2_u64};
use super::helpers::address_to_meta_address;

verus! {

/// `ceil(x / 2^s)`.
pub open spec fn ceil_shift(x: nat, s: nat) -> nat {
    ((x + pow2(s) - 1) / pow2(s) as int) as nat
}

/// `ceil(x / 2^s)`, computed without overflow.
pub fn ceil_shift_u64(x: u64, s: u64) -> (r: u64)
    requires
        s < 64,
    ensures
        r == ceil_shift(x as nat, s as nat),
{
    let p = pow2_u64(s);
    let q = x / p;
    let rem = x % p;
    proof {
        lemma_ceil_div(x as int, p as int);
    }
    if rem > 0 {
        q + 1
    } else {
        q
    }
}

/// `(x + p - 1) / p` is `x / p`, plus one if `p` does not divide `x`.
proof fn lemma_ceil_div(x: int, p: int)
    requires
        x >= 0,
        p > 0,
    ensures
        (x + p - 1) / p == x / p + (if x % p > 0 { 1int } else { 0int }),
        x > 0 && p > 1 ==> x / p < x,
        x / p <= x,
{
    vstd::arithmetic::div_mod::lemma_fundamental_div_mod(x, p);
    let q = x / p;
    let r = x % p;
    assert(p * q == q * p) by (nonlinear_arith);
    assert(x + p - 1 == q * p + (r + p - 1));
    if r > 0 {
        assert((q + 1) * p == q * p + p) by (nonlinear_arith);
        vstd::arithmetic::div_mod::lemma_fundamental_div_mod_converse(x + p - 1, p, q + 1, r - 1);
    } else {
        vstd::arithmetic::div_mod::lemma_fundamental_div_mod_converse(x + p - 1, p, q, p - 1);
    }
    vstd::arithmetic::div_mod::lemma_div_is_ordered_by_denominator(x, 1, p);
    vstd::arithmetic::div_mod::lemma_div_basics(x);
    if x > 0 && p > 1 {
        vstd::arithmetic::div_mod::lemma_div_decreases(x, p);
    }
}

/// The metadata pages that `data_pages` pages of data need under each spec of `specs`.
pub open spec fn reserved_pages(specs: Seq<SideMetadataSpec>, data_pages: nat) -> nat
    decreases specs.len(),
{
    if specs.len() == 0 {
        0
    } else {
        reserved_pages(specs.drop_last(), data_pages) + ceil_shift(data_pages, specs.last().rshift_spec())
    }
}

/// Every spec of `specs` is well formed.
pub open spec fn all_wf(specs: Seq<SideMetadataSpec>) -> bool {
    forall|i: int| 0 <= i < specs.len() ==> #[trigger] specs[i].wf()
}

/// The page-aligned metadata address range `(start, size)` that holds the
/// metadata of the data range `[start, start + size)` under `spec`.
pub open spec fn mmap_range_spec(spec: SideMetadataSpec, start: int, size: int) -> (int, int) {
    let meta_start = spec.meta_addr_spec(start);
    let meta_size = ceil_shift(size as nat, spec.rshift_spec());
    let mmap_start = align_down_spec(meta_start, 4096);
    (mmap_start, align_up_spec(meta_start + meta_size, 4096) - mmap_start)
}

/// The metadata of `[start, start + size)` under `spec` can be located and
/// its range rounded to pages within the address space.
pub open spec fn mmap_range_ok(spec: SideMetadataSpec, start: int, size: int) -> bool {
    &&& spec.wf()
    &&& 0 <= start
    &&& 0 <= size
    &&& spec.meta_addr_fits(start)
    &&& spec.meta_addr_spec(start) + ceil_shift(size as nat, spec.rshift_spec()) + 4095 <= u64::MAX
}

/// The page-aligned metadata address range `(start, size)` to map for the
/// data range `[start, start + size)` under `spec`.
pub fn metadata_mmap_range(spec: &SideMetadataSpec, start: Address, size: u64) -> (r: (Address, u64))
    requires
        mmap_range_ok(*spec, start as int, size as int),
    ensures
        r.0 == mmap_range_spec(*spec, start as int, size as int).0,
        r.1 == mmap_range_spec(*spec, start as int, size as int).1,
{
    let metadata_start = address_to_meta_address(spec, start);
    let mmap_start = raw_align_down(metadata_start, 4096);
    let rshift = addr_rshift(spec);
    let metadata_size = ceil_shift_u64(size, rshift);
    let mmap_end = raw_align_up(metadata_start + metadata_size, 4096);
    (mmap_start, mmap_end - mmap_start)
}

/// A request to map a range of metadata memory.
#[derive(Clone, Copy, Debug, PartialEq, Eq, Structural)]
pub struct MetadataMapRequest {
    /// The first address of the range (page aligned).
    pub start: Address,
    /// The size of the range in bytes (a multiple of the page size).
    pub bytes: u64,
    /// Only reserve the address range (no swap space or physical memory).
    pub no_reserve: bool,
}

/// The requests to map, in order, the metadata of `[start, start + size)` under
/// each spec of `specs`; empty ranges are skipped.
pub open spec fn map_requests(specs: Seq<SideMetadataSpec>, start: int, size: int, no_reserve: bool) -> Seq<MetadataMapRequest>
    decreases specs.len(),
{
    if specs.len() == 0 {
        Seq::empty()
    } else {
        let prev = map_requests(specs.drop_last(), start, size, no_reserve);
        let range = mmap_range_spec(specs.last(), start, size);
        if range.1 > 0 {
            prev.push(MetadataMapRequest { start: range.0 as u64, bytes: range.1 as u64, no_reserve })
        } else {
            prev
        }
    }
}

/// The specs that a policy uses: the plan's global specs and its own local specs.
pub struct SideMetadataContext {
    pub global: Vec<SideMetadataSpec>,
    pub local: Vec<SideMetadataSpec>,
}

impl SideMetadataContext {
    /// Every spec of the context is well formed.
    pub open spec fn wf(&self) -> bool {
        all_wf(self.global@) && all_wf(self.local@)
    }

    /// The global specs of a plan: the spec of the space function table, if
    /// it keeps one on the side and it is global, followed by `specs`.
    pub fn new_global_specs(sft_spec: Option<SideMetadataSpec>, specs: &[SideMetadataSpec]) -> (r: Vec<SideMetadataSpec>)
        ensures
            r@ == (match sft_spec {
                Some(s) => if s.is_global { seq![s] } else { Seq::empty() },
                None => Seq::empty(),
            }) + specs@,
    {
        let mut ret: Vec<SideMetadataSpec> = Vec::new();
        if let Some(spec) = sft_spec {
            if spec.is_global {
                ret.push(spec);
            }
        }
        let ghost prefix = ret@;
        let mut i: usize = 0;
        while i < specs.len()
            invariant
                i <= specs@.len(),
                ret@ == prefix + specs@.subrange(0, i as int),
            decreases specs@.len() - i,
        {
            ret.push(specs[i]);
            i = i + 1;
            proof {
                assert(prefix + specs@.subrange(0, i as int) =~= ret@);
            }
        }
        proof {
            assert(specs@.subrange(0, specs@.len() as int) =~= specs@);
        }
        ret
    }

    /// The local specs of the policy.
    pub fn get_local_specs(&self) -> (r: &[SideMetadataSpec])
        ensures
            r@ == self.local@,
    {
        self.local.as_slice()
    }

    /// The pages of metadata that `data_pages` pages of data need, rounded up per spec.
    pub fn calculate_reserved_pages(&self, data_pages: u64) -> (r: u64)
        requires
            self.wf(),
            reserved_pages(self.global@, data_pages as nat) + reserved_pages(self.local@, data_pages as nat) <= u64::MAX,
        ensures
            r == reserved_pages(self.global@, data_pages as nat) + reserved_pages(self.local@, data_pages as nat),
    {
        let g = sum_reserved_pages(self.global.as_slice(), data_pages);
        let l = sum_reserved_pages(self.local.as_slice(), data_pages);
        g + l
    }

    /// Nothing to reset.
    pub fn reset(&self) {
    }

    /// The requests that map the metadata of the data range `[start, start + size)`
    /// for every spec, global ones first. The range is page aligned.
    pub fn try_map_metadata_space(&self, start: Address, size: u64) -> (r: Vec<MetadataMapRequest>)
        requires
            forall|i: int| 0 <= i < self.global@.len() ==> mmap_range_ok(#[trigger] self.global@[i], start as int, size as int),
            forall|i: int| 0 <= i < self.local@.len() ==> mmap_range_ok(#[trigger] self.local@[i], start as int, size as int),
        ensures
            r@ == map_requests(self.global@ + self.local@, start as int, size as int, false),
    {
        self.map_metadata_internal(start, size, false)
    }

    /// The requests that reserve, without committing memory, the metadata
    /// address range of the data range `[start, start + size)` (chunk aligned).
    pub fn try_map_metadata_address_range(&self, start: Address, size: u64) -> (r: Vec<MetadataMapRequest>)
        requires
            forall|i: int| 0 <= i < self.global@.len() ==> mmap_range_ok(#[trigger] self.global@[i], start as int, size as int),
            forall|i: int| 0 <= i < self.local@.len() ==> mmap_range_ok(#[trigger] self.local@[i], start as int, size as int),
        ensures
            r@ == map_requests(self.global@ + self.local@, start as int, size as int, true),
    {
        self.map_metadata_internal(start, size, true)
    }

    fn map_metadata_internal(&self, start: Address, size: u64, no_reserve: bool) -> (r: Vec<MetadataMapRequest>)
        requires
            forall|i: int| 0 <= i < self.global@.len() ==> mmap_range_ok(#[trigger] self.global@[i], start as int, size as int),
            forall|i: int| 0 <= i < self.local@.len() ==> mmap_range_ok(#[trigger] self.local@[i], start as int, size as int),
        ensures
            r@ == map_requests(self.global@ + self.local@, start as int, size as int, no_reserve),
    {
        let ghost all = self.global@ + self.local@;
        let mut requests: Vec<MetadataMapRequest> = Vec::new();
        let mut i: usize = 0;
        while i < self.global.len()
            invariant
                all == self.global@ + self.local@,
                i <= self.global@.len(),
                forall|j: int| 0 <= j < all.len() ==> mmap_range_ok(#[trigger] all[j], start as int, size as int),
                requests@ == map_requests(all.subrange(0, i as int), start as int, size as int, no_reserve),
            decreases self.global@.len() - i,
        {
            assert(self.global[i as int] == all[i as int]);
            let (mmap_start, mmap_size) = metadata_mmap_range(&self.global[i], start, size);
            if mmap_size > 0 {
                requests.push(MetadataMapRequest { start: mmap_start, bytes: mmap_size, no_reserve });
            }
            proof {
                assert(all.subrange(0, i + 1).drop_last() =~= all.subrange(0, i as int));
            }
            i = i + 1;
        }
        let n = i;
        let mut k: usize = 0;
        while k < self.local.len()
            invariant
                all == self.global@ + self.local@,
                n == self.global@.len(),
                k <= self.local@.len(),
                forall|j: int| 0 <= j < all.len() ==> mmap_range_ok(#[trigger] all[j], start as int, size as int),
                requests@ == map_requests(all.subrange(0, n + k), start as int, size as int, no_reserve),
            decreases self.local@.len() - k,
        {
            assert(self.local[k as int] == all[n + k]);
            let (mmap_start, mmap_size) = metadata_mmap_range(&self.local[k], start, size);
            if mmap_size > 0 {
                requests.push(MetadataMapRequest { start: mmap_start, bytes: mmap_size, no_reserve });
            }
            proof {
                assert(all.subrange(0, n + k + 1).drop_last() =~= all.subrange(0, n + k));
            }
            k = k + 1;
        }
        proof {
            assert(all.subrange(0, all.len() as int) =~= all);
        }
        requests
    }

    /// The metadata ranges to unmap for the data range `[start, start + size)`
    /// (page aligned), one per spec, global ones first.
    pub fn ensure_unmap_metadata_space(&self, start: Address, size: u64) -> (r: Vec<MetadataMapRequest>)
        requires
            forall|i: int| 0 <= i < self.global@.len() ==> mmap_range_ok(#[trigger] self.global@[i], start as int, size as int),
            forall|i: int| 0 <= i < self.local@.len() ==> mmap_range_ok(#[trigger] self.local@[i], start as int, size as int),
        ensures
            r@ == map_requests(self.global@ + self.local@, start as int, size as int, false),
    {
        self.map_metadata_internal(start, size, false)
    }
}

/// The sum of the metadata pages that `data_pages` pages of data need under each spec.
fn sum_reserved_pages(specs: &[SideMetadataSpec], data_pages: u64) -> (r: u64)
    requires
        all_wf(specs@),
        reserved_pages(specs@, data_pages as nat) <= u64::MAX,
    ensures
        r == reserved_pages(specs@, data_pages as nat),
{
    let mut total: u64 = 0;
    let mut i: usize = 0;
    while i < specs.len()
        invariant
            i <= specs@.len(),
            all_wf(specs@),
            reserved_pages(specs@, data_pages as nat) <= u64::MAX,
            total == reserved_pages(specs@.subrange(0, i as int), data_pages as nat),
        decreases specs@.len() - i,
    {
        proof {
            assert(specs@.subrange(0, i + 1).drop_last() =~= specs@.subrange(0, i as int));
            lemma_reserved_pages_prefix(specs@, data_pages as nat, i + 1);
        }
        let rshift = addr_rshift(&specs[i]);
        let pages = ceil_shift_u64(data_pages, rshift);
        total = total + pages;
        i = i + 1;
    }
    proof {
        assert(specs@.subrange(0, specs@.len() as int) =~= specs@);
    }
    total
}

/// The pages needed under a prefix of the specs are at most those needed under all of them.
proof fn lemma_reserved_pages_prefix(specs: Seq<SideMetadataSpec>, data_pages: nat, k: int)
    requires
        0 <= k <= specs.len(),
    ensures
        reserved_pages(specs.subrange(0, k), data_pages) <= reserved_pages(specs, data_pages),
    decreases specs.len(),
{
    if k < specs.len() {
        assert(specs.drop_last().subrange(0, k) =~= specs.subrange(0, k));
        lemma_reserved_pages_prefix(specs.drop_last(), data_pages, k);
    } else {
        assert(specs.subrange(0, k) =~= specs);
    }
}

/// A view of the side metadata bytes of a heap range, one byte per region.
pub struct MetadataByteArrayRef<const ENTRIES: usize> {
    /// The metadata address of the first entry.
    data: Address,
}

impl<const ENTRIES: usize> MetadataByteArrayRef<ENTRIES> {
    /// The metadata address of the first entry.
    pub closed spec fn data_spec(&self) -> Address {
        self.data
    }

    /// The metadata bytes of the `ENTRIES` regions from `start`, under a spec
    /// with a byte of metadata per region.
    pub fn new(metadata_spec: &SideMetadataSpec, start: Address, bytes: u64) -> (r: Self)
        requires
            metadata_spec.wf(),
            metadata_spec.log_num_of_bits == 3,
            metadata_spec.meta_addr_fits(start as int),
            bytes as int / pow2(metadata_spec.log_bytes_in_region as nat) as int == ENTRIES,
        ensures
            r.data_spec() == metadata_spec.meta_addr_spec(start as int),
    {
        MetadataByteArrayRef { data: address_to_meta_address(metadata_spec, start) }
    }

    /// The number of entries.
    pub fn len(&self) -> (r: usize)
        ensures
            r == ENTRIES,
    {
        ENTRIES
    }

    /// The metadata byte at `index`.
    pub fn get(&self, mem: &MemoryRegion, index: usize) -> (r: u8)
        requires
            index < ENTRIES,
            self.data_spec() + index <= u64::MAX,
            mem.contains(self.data_spec() + index),
        ensures
            r == mem.byte(self.data_spec() + index),
    {
        mem.load_u8(self.data + index as u64)
    }
}

/// How far the mapping of a list of metadata requests has come: the requests
/// are mapped in order, and the first that fails ends the mapping.
#[derive(Clone, Copy, Debug, PartialEq, Eq, Structural)]
pub struct MapProgress {
    /// The number of requests mapped so far, all of them successfully.
    pub mapped: usize,
    /// The request after those failed to map.
    pub failed: bool,
}

/// The progress after the outcomes `outcomes` (true for a request that was
/// mapped): requests are mapped until the first that fails, and an outcome
/// after a failure is never asked for.
pub open spec fn progress_after(outcomes: Seq<bool>) -> (nat, bool)
    decreases outcomes.len(),
{
    if outcomes.len() == 0 {
        (0, false)
    } else {
        let (m, f) = progress_after(outcomes.drop_last());
        if f {
            (m, f)
        } else if outcomes.last() {
            (m + 1, false)
        } else {
            (m, true)
        }
    }
}

/// Mapping fails exactly when some request fails; the requests mapped are
/// those before the first failure, and all of them if none fails.
pub proof fn lemma_progress_after(outcomes: Seq<bool>)
    ensures
        progress_after(outcomes).1 <==> exists|i: int| 0 <= i < outcomes.len() && !#[trigger] outcomes[i],
        !progress_after(outcomes).1 ==> progress_after(outcomes).0 == outcomes.len(),
        progress_after(outcomes).1 ==> {
            let m = progress_after(outcomes).0 as int;
            &&& m < outcomes.len()
            &&& !outcomes[m]
            &&& forall|i: int| 0 <= i < m ==> #[trigger] outcomes[i]
        },
    decreases outcomes.len(),
{
    if outcomes.len() > 0 {
        let front = outcomes.drop_last();
        lemma_progress_after(front);
        assert forall|i: int| 0 <= i < front.len() implies front[i] == outcomes[i] by {}
        if progress_after(front).1 {
            let i = choose|i: int| 0 <= i < front.len() && !#[trigger] front[i];
            assert(!outcomes[i]);
        } else if !outcomes.last() {
            assert(!outcomes[outcomes.len() - 1]);
        } else {
            assert forall|i: int| 0 <= i < outcomes.len() implies #[trigger] outcomes[i] by {
                if i < front.len() {
                    assert(front[i]);
                }
            }
        }
    }
}

impl MapProgress {
    /// Nothing mapped yet.
    pub fn new() -> (r: MapProgress)
        ensures
            r.mapped == 0,
            !r.failed,
    {
        MapProgress { mapped: 0, failed: false }
    }

    /// The next request of `requests` to map: none once one has failed or all
    /// are mapped.
    pub fn next_request(&self, requests: &[MetadataMapRequest]) -> (r: Option<MetadataMapRequest>)
        ensures
            r == if !self.failed && self.mapped < requests@.len() {
                Some(requests@[self.mapped as int])
            } else {
                None::<MetadataMapRequest>
            },
    {
        if !self.failed && self.mapped < requests.len() {
            Some(requests[self.mapped])
        } else {
            None
        }
    }

    /// Record whether the request that `next_request` gave was mapped (`ok`).
    pub fn record(&mut self, requests: &[MetadataMapRequest], ok: bool)
        requires
            !old(self).failed,
            old(self).mapped < requests@.len(),
        ensures
            ok ==> final(self).mapped == old(self).mapped + 1 && !final(self).failed,
            !ok ==> final(self).mapped == old(self).mapped && final(self).failed,
    {
        let n = requests.len();
        if ok {
            assert(self.mapped < n);
            self.mapped = self.mapped + 1;
        } else {
            self.failed = true;
        }
    }

    /// The outcome of mapping `requests`: `Some(true)` once all are mapped,
    /// `Some(false)` once one has failed, `None` while requests are left.
    pub fn finished(&self, requests: &[MetadataMapRequest]) -> (r: Option<bool>)
        ensures
            r == if self.failed {
                Some(false)
            } else if self.mapped >= requests@.len() {
                Some(true)
            } else {
                None::<bool>
            },
    {
        if self.failed {
            Some(false)
        } else if self.mapped >= requests.len() {
            Some(true)
        } else {
            None
        }
    }
}

} // verus!
