//! Copying the metadata of one spec into another spec of the same layout.
use vstd::prelude::*;
use vstd::arithmetic::power2::pow2;
use crate::address::Address;
use crate::memory::MemoryRegion;
use super::spec::{SideMetadataSpec, pow2_u64};

verus! {

/// `a` and `b` lie in the same region of `2^k` bytes exactly when `b` lies in
/// the region that starts at `a`, for a region start `a`.
proof fn lemma_same_region(a: int, b: int, k: nat)
    requires
        a >= 0,
        b >= 0,
        a % (pow2(k) as int) == 0,
    ensures
        (a / (pow2(k) as int) == b / (pow2(k) as int)) <==> (a <= b < a + pow2(k)),
{
    let r = pow2(k) as int;
    vstd::arithmetic::power2::lemma_pow2_pos(k);
    vstd::arithmetic::div_mod::lemma_fundamental_div_mod(a, r);
    vstd::arithmetic::div_mod::lemma_fundamental_div_mod(b, r);
    let qa = a / r;
    let qb = b / r;
    if qa == qb {
        assert(a <= b < a + r) by (nonlinear_arith)
            requires a == r * qa, b == r * qb + b % r, 0 <= b % r < r, qa == qb;
    }
    if a <= b < a + r {
        assert(qa <= qb) by (nonlinear_arith)
            requires a == r * qa, b == r * qb + b % r, 0 <= b % r < r, a <= b, r > 0;
        assert(qb <= qa) by (nonlinear_arith)
            requires a == r * qa, b == r * qb + b % r, 0 <= b % r < r, b < a + r, r > 0;
    }
}

impl SideMetadataSpec {
    /// `self` and `other` lay out metadata alike: as many bits per region, and
    /// regions of the same size.
    pub open spec fn same_layout(self, other: SideMetadataSpec) -> bool {
        &&& self.log_num_of_bits == other.log_num_of_bits
        &&& self.log_bytes_in_region == other.log_bytes_in_region
    }

    /// The start of the region of `a`.
    pub open spec fn region_start(self, a: int) -> int {
        a - a % (pow2(self.log_bytes_in_region as nat) as int)
    }

    /// Copy the metadata of `other` (in `other_mem`) for the data range
    /// `[start, start + size)` into the metadata of `self` (in `mem`): the
    /// values of the regions from that of `start` up to (excluding) that of
    /// `start + size` become those of `other`; every other value of `self`
    /// is unchanged.
    pub fn bcopy_metadata_contiguous(&self, mem: &mut MemoryRegion, start: Address, size: u64,
        other: &SideMetadataSpec, other_mem: &MemoryRegion)
        requires
            self.wf(),
            self.same_layout(*other),
            start + size <= u64::MAX,
            forall|a: int| #![trigger self.accessible(*old(mem), a)]
                self.region_start(start as int) <= a < self.region_start(start + size)
                ==> self.accessible(*old(mem), a) && other.accessible(*other_mem, a),
        ensures
            final(mem).start_spec() == old(mem).start_spec(),
            final(mem).bytes_spec().len() == old(mem).bytes_spec().len(),
            final(mem).wf() == old(mem).wf(),
            forall|a: int| #![trigger self.value_in(*final(mem), a)]
                self.region_start(start as int) <= a < self.region_start(start + size)
                ==> self.value_in(*final(mem), a) == other.value_in(*other_mem, a),
            forall|a: int| #![trigger self.value_in(*final(mem), a)]
                0 <= a && self.accessible(*old(mem), a) && !(self.region_start(start as int) <= a < self.region_start(start + size))
                ==> self.value_in(*final(mem), a) == self.value_in(*old(mem), a),
    {
        let ghost m0 = *mem;
        let k = self.log_bytes_in_region as u64;
        let region = pow2_u64(k);
        let end = start + size;
        proof {
            crate::conversions::lemma_align_facts(start as int, region as int);
            crate::conversions::lemma_align_facts(end as int, region as int);
        }
        let lo = start - start % region;
        let hi = end - end % region;
        let ghost rs = region as int;
        proof {
            vstd::arithmetic::div_mod::lemma_fundamental_div_mod(start as int, rs);
            vstd::arithmetic::div_mod::lemma_fundamental_div_mod(end as int, rs);
            vstd::arithmetic::div_mod::lemma_mod_multiples_basic(start as int / rs, rs);
            vstd::arithmetic::div_mod::lemma_mod_multiples_basic(end as int / rs, rs);
            vstd::arithmetic::mul::lemma_mul_is_commutative(rs, start as int / rs);
            vstd::arithmetic::mul::lemma_mul_is_commutative(rs, end as int / rs);
            assert(lo % region == 0 && hi % region == 0);
            vstd::arithmetic::div_mod::lemma_div_is_ordered(start as int, end as int, rs);
            vstd::arithmetic::mul::lemma_mul_inequality(start as int / rs, end as int / rs, rs);
            assert(lo <= hi);
        }
        let mut a = lo;
        while a < hi
            invariant
                self.wf(),
                self.same_layout(*other),
                region == pow2(self.log_bytes_in_region as nat),
                region > 0,
                lo == self.region_start(start as int),
                hi == self.region_start(start + size),
                lo <= a <= hi,
                a % region == 0,
                hi % region == 0,
                forall|b: int| #![trigger self.accessible(m0, b)]
                    lo <= b < hi ==> self.accessible(m0, b) && other.accessible(*other_mem, b),
                mem.start_spec() == m0.start_spec(),
                mem.bytes_spec().len() == m0.bytes_spec().len(),
                mem.wf() == m0.wf(),
                forall|b: int| #![trigger self.value_in(*mem, b)]
                    lo <= b < a ==> self.value_in(*mem, b) == other.value_in(*other_mem, b),
                forall|b: int| #![trigger self.value_in(*mem, b)]
                    0 <= b && self.accessible(m0, b) && !(lo <= b < a) ==> self.value_in(*mem, b) == self.value_in(m0, b),
            decreases hi - a,
        {
            proof {
                vstd::arithmetic::div_mod::lemma_fundamental_div_mod(a as int, region as int);
                vstd::arithmetic::div_mod::lemma_fundamental_div_mod(hi as int, region as int);
                assert(a + region <= hi) by (nonlinear_arith)
                    requires a < hi, a == region * (a / region), hi == region * (hi / region), region > 0;
                assert(self.accessible(m0, a as int));
            }
            let ghost old_a = a as int;
            let v = other.load(other_mem, a);
            let ghost before = *mem;
            self.store(mem, a, v);
            proof {
                assert forall|b: int| #![trigger self.value_in(*mem, b)]
                    lo <= b < a + region ==> self.value_in(*mem, b) == other.value_in(*other_mem, b) by {
                    if lo <= b < a + region {
                        assert(self.accessible(m0, b));
                        assert(self.accessible(before, b));
                        assert(self.accessible(before, a as int));
                        self.lemma_store_then_load(before, *mem, a as int, v as nat, b);
                        lemma_same_region(a as int, b, self.log_bytes_in_region as nat);
                        if b >= a {
                            assert(self.region_index(a as int) == self.region_index(b));
                            assert(other.region_index(a as int) == other.region_index(b));
                            assert(other.value_in(*other_mem, a as int) == other.value_in(*other_mem, b)) by {
                                assert(other.meta_addr_spec(a as int) == other.meta_addr_spec(b));
                                assert(other.lshift_spec(a as int) == other.lshift_spec(b));
                            }
                        }
                    }
                }
                assert forall|b: int| #![trigger self.value_in(*mem, b)]
                    0 <= b && self.accessible(m0, b) && !(lo <= b < a + region) ==> self.value_in(*mem, b) == self.value_in(m0, b) by {
                    if 0 <= b && self.accessible(m0, b) && !(lo <= b < a + region) {
                        assert(self.accessible(before, b));
                        assert(self.accessible(before, a as int));
                        self.lemma_store_then_load(before, *mem, a as int, v as nat, b);
                        lemma_same_region(a as int, b, self.log_bytes_in_region as nat);
                    }
                }
            }
            let ghost q = a as int / region as int;
            a = a + region;
            proof {
                assert(a == (q + 1) * region) by (nonlinear_arith)
                    requires a == old_a + region, old_a == region * q;
                vstd::arithmetic::div_mod::lemma_mod_multiples_basic(q + 1, region as int);
            }
        }
    }

    /// The metadata value with all its bits set.
    fn all_ones(&self) -> (r: u64)
        requires
            self.wf(),
        ensures
            r == pow2(self.num_bits_spec()) - 1,
    {
        proof {
            vstd::arithmetic::power2::lemma2_to64();
            vstd::arithmetic::power2::lemma2_to64_rest();
        }
        let bits = pow2_u64(self.log_num_of_bits as u64);
        if bits == 64 {
            u64::MAX
        } else {
            assert(bits <= 32);
            let p = pow2_u64(bits);
            p - 1
        }
    }

    /// Set all the metadata bits of the data range `[start, start + size)`:
    /// the values of the regions from that of `start` up to (excluding) that
    /// of `start + size` have all their bits set; every other value is
    /// unchanged.
    pub fn bset_metadata(&self, mem: &mut MemoryRegion, start: Address, size: u64)
        requires
            self.wf(),
            start + size <= u64::MAX,
            forall|a: int| #![trigger self.accessible(*old(mem), a)]
                self.region_start(start as int) <= a < self.region_start(start + size)
                ==> self.accessible(*old(mem), a),
        ensures
            final(mem).start_spec() == old(mem).start_spec(),
            final(mem).bytes_spec().len() == old(mem).bytes_spec().len(),
            final(mem).wf() == old(mem).wf(),
            forall|a: int| #![trigger self.value_in(*final(mem), a)]
                self.region_start(start as int) <= a < self.region_start(start + size)
                ==> self.value_in(*final(mem), a) == pow2(self.num_bits_spec()) - 1,
            forall|a: int| #![trigger self.value_in(*final(mem), a)]
                0 <= a && self.accessible(*old(mem), a) && !(self.region_start(start as int) <= a < self.region_start(start + size))
                ==> self.value_in(*final(mem), a) == self.value_in(*old(mem), a),
    {
        let ghost m0 = *mem;
        let k = self.log_bytes_in_region as u64;
        let region = pow2_u64(k);
        let end = start + size;
        proof {
            crate::conversions::lemma_align_facts(start as int, region as int);
            crate::conversions::lemma_align_facts(end as int, region as int);
        }
        let lo = start - start % region;
        let hi = end - end % region;
        let ghost rs = region as int;
        proof {
            vstd::arithmetic::div_mod::lemma_fundamental_div_mod(start as int, rs);
            vstd::arithmetic::div_mod::lemma_fundamental_div_mod(end as int, rs);
            vstd::arithmetic::div_mod::lemma_mod_multiples_basic(start as int / rs, rs);
            vstd::arithmetic::div_mod::lemma_mod_multiples_basic(end as int / rs, rs);
            vstd::arithmetic::mul::lemma_mul_is_commutative(rs, start as int / rs);
            vstd::arithmetic::mul::lemma_mul_is_commutative(rs, end as int / rs);
            assert(lo % region == 0 && hi % region == 0);
            vstd::arithmetic::div_mod::lemma_div_is_ordered(start as int, end as int, rs);
            vstd::arithmetic::mul::lemma_mul_inequality(start as int / rs, end as int / rs, rs);
            assert(lo <= hi);
        }
        let ones = self.all_ones();
        let mut a = lo;
        while a < hi
            invariant
                self.wf(),
                region == pow2(self.log_bytes_in_region as nat),
                region > 0,
                lo == self.region_start(start as int),
                hi == self.region_start(start + size),
                lo <= a <= hi,
                a % region == 0,
                hi % region == 0,
                forall|b: int| #![trigger self.accessible(m0, b)]
                    lo <= b < hi ==> self.accessible(m0, b),
                ones == pow2(self.num_bits_spec()) - 1,
                mem.start_spec() == m0.start_spec(),
                mem.bytes_spec().len() == m0.bytes_spec().len(),
                mem.wf() == m0.wf(),
                forall|b: int| #![trigger self.value_in(*mem, b)]
                    lo <= b < a ==> self.value_in(*mem, b) == ones,
                forall|b: int| #![trigger self.value_in(*mem, b)]
                    0 <= b && self.accessible(m0, b) && !(lo <= b < a) ==> self.value_in(*mem, b) == self.value_in(m0, b),
            decreases hi - a,
        {
            proof {
                vstd::arithmetic::div_mod::lemma_fundamental_div_mod(a as int, region as int);
                vstd::arithmetic::div_mod::lemma_fundamental_div_mod(hi as int, region as int);
                assert(a + region <= hi) by (nonlinear_arith)
                    requires a < hi, a == region * (a / region), hi == region * (hi / region), region > 0;
                assert(self.accessible(m0, a as int));
            }
            let ghost old_a = a as int;
            let v = ones;
            let ghost before = *mem;
            self.store(mem, a, v);
            proof {
                assert forall|b: int| #![trigger self.value_in(*mem, b)]
                    lo <= b < a + region ==> self.value_in(*mem, b) == ones by {
                    if lo <= b < a + region {
                        assert(self.accessible(m0, b));
                        assert(self.accessible(before, b));
                        assert(self.accessible(before, a as int));
                        self.lemma_store_then_load(before, *mem, a as int, v as nat, b);
                        lemma_same_region(a as int, b, self.log_bytes_in_region as nat);
                        if b >= a {
                            assert(self.region_index(a as int) == self.region_index(b));
                        }
                    }
                }
                assert forall|b: int| #![trigger self.value_in(*mem, b)]
                    0 <= b && self.accessible(m0, b) && !(lo <= b < a + region) ==> self.value_in(*mem, b) == self.value_in(m0, b) by {
                    if 0 <= b && self.accessible(m0, b) && !(lo <= b < a + region) {
                        assert(self.accessible(before, b));
                        assert(self.accessible(before, a as int));
                        self.lemma_store_then_load(before, *mem, a as int, v as nat, b);
                        lemma_same_region(a as int, b, self.log_bytes_in_region as nat);
                    }
                }
            }
            let ghost q = a as int / region as int;
            a = a + region;
            proof {
                assert(a == (q + 1) * region) by (nonlinear_arith)
                    requires a == old_a + region, old_a == region * q;
                vstd::arithmetic::div_mod::lemma_mod_multiples_basic(q + 1, region as int);
            }
        }
    }
}

} // verus!
