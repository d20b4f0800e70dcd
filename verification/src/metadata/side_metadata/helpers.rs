//! The mapping between data addresses and side metadata addresses, and bit searches.
use vstd::prelude::*;
use vstd::arithmetic::power2::{pow2, lemma2_to64, lemma_pow2_pos, lemma_pow2_adds};
use vstd::arithmetic::div_mod::*;
use vstd::arithmetic::mul::*;
use crate::address::Address;
use crate::memory::le_value;
use vstd::calc;
use crate::conversions::{align_down_spec, lemma_align_facts};
use super::spec::{SideMetadataSpec, pow2_u64};

verus! {

/// Bit `i` of the value `v` is set.
pub open spec fn bit_set(v: nat, i: nat) -> bool {
    (v / pow2(i)) % 2 == 1
}

/// The metadata byte mask of a spec with `2^log_num_of_bits` bits per region.
pub open spec fn meta_byte_mask_spec(log_num_of_bits: nat) -> nat {
    if log_num_of_bits <= 2 {
        (pow2(pow2(log_num_of_bits)) - 1) as nat
    } else {
        255
    }
}

/// The metadata address of a data address in a contiguous metadata space.
pub fn address_to_contiguous_meta_address(metadata_spec: &SideMetadataSpec, data_addr: Address) -> (r: Address)
    requires
        metadata_spec.wf(),
        metadata_spec.meta_addr_fits(data_addr as int),
    ensures
        r == metadata_spec.meta_addr_spec(data_addr as int),
{
    let region = data_addr / pow2_u64(metadata_spec.log_bytes_in_region as u64);
    if metadata_spec.log_num_of_bits <= 3 {
        let shift = pow2_u64((3 - metadata_spec.log_num_of_bits) as u64);
        metadata_spec.get_absolute_offset() + region / shift
    } else {
        let shift = pow2_u64((metadata_spec.log_num_of_bits - 3) as u64);
        metadata_spec.get_absolute_offset() + region * shift
    }
}

/// The metadata address of a data address (all
/// side metadata is contiguous on 64-bit targets).
pub fn address_to_meta_address(metadata_spec: &SideMetadataSpec, data_addr: Address) -> (r: Address)
    requires
        metadata_spec.wf(),
        metadata_spec.meta_addr_fits(data_addr as int),
    ensures
        r == metadata_spec.meta_addr_spec(data_addr as int),
{
    address_to_contiguous_meta_address(metadata_spec, data_addr)
}

/// The position of the lowest metadata bit of `data_addr` in its metadata byte.
pub fn meta_byte_lshift(metadata_spec: &SideMetadataSpec, data_addr: Address) -> (r: u8)
    requires
        metadata_spec.wf(),
    ensures
        r == metadata_spec.lshift_spec(data_addr as int),
        r as int + metadata_spec.num_bits_spec() <= 8 || metadata_spec.log_num_of_bits >= 3,
        r < 8,
{
    proof {
        lemma2_to64();
    }
    let bits_num_log = metadata_spec.log_num_of_bits;
    if bits_num_log >= 3 {
        return 0;
    }
    let region = data_addr / pow2_u64(metadata_spec.log_bytes_in_region as u64);
    let k = pow2_u64((3 - bits_num_log) as u64);
    let idx = region % k;
    let step = pow2_u64(bits_num_log as u64);
    proof {
        lemma_mod_bound(region as int, k as int);
    }
    assert(idx * step + step <= 8) by {
        if bits_num_log == 0 {
        } else if bits_num_log == 1 {
        } else {
        }
    }
    (idx * step) as u8
}

/// The mask of the metadata bits of one region, in the lowest bits of a byte.
pub fn meta_byte_mask(metadata_spec: &SideMetadataSpec) -> (r: u8)
    requires
        metadata_spec.log_num_of_bits <= 5,
    ensures
        r == meta_byte_mask_spec(metadata_spec.log_num_of_bits as nat),
{
    proof {
        lemma2_to64();
    }
    let bits_num_log = metadata_spec.log_num_of_bits;
    if bits_num_log >= 3 {
        255
    } else {
        let bits = pow2_u64(bits_num_log as u64);
        (pow2_u64(bits) - 1) as u8
    }
}

/// Align a pair of a metadata address and a bit offset to the start of a metadata value.
pub fn align_metadata_address(spec: &SideMetadataSpec, metadata_addr: Address, bit: u8) -> (r: (Address, u8))
    requires
        spec.wf(),
    ensures
        spec.log_num_of_bits >= 3 ==> r == (align_down_spec(metadata_addr as int, pow2((spec.log_num_of_bits - 3) as nat) as int) as Address, 0u8),
        spec.log_num_of_bits < 3 ==> r == (metadata_addr, align_down_spec(bit as int, pow2(spec.log_num_of_bits as nat) as int) as u8),
{
    if spec.log_num_of_bits >= 3 {
        let a = pow2_u64((spec.log_num_of_bits - 3) as u64);
        (crate::conversions::raw_align_down(metadata_addr, a), 0)
    } else {
        let a = pow2_u64(spec.log_num_of_bits as u64);
        (metadata_addr, crate::conversions::raw_align_down(bit as u64, a) as u8)
    }
}

/// The data address whose metadata starts at `metadata_addr`, bit `bit`.
pub open spec fn meta_to_data_spec(spec: SideMetadataSpec, metadata_addr: int, bit: int) -> int {
    let rel = metadata_addr - spec.offset.value_spec();
    if spec.log_num_of_bits <= 3 {
        rel * pow2((3 - spec.log_num_of_bits) as nat) * pow2(spec.log_bytes_in_region as nat)
            + bit * pow2((spec.log_bytes_in_region - spec.log_num_of_bits) as nat)
    } else {
        (rel / pow2((spec.log_num_of_bits - 3) as nat) as int) * pow2(spec.log_bytes_in_region as nat)
            + bit * pow2(spec.log_bytes_in_region as nat)
    }
}

/// The data address whose metadata starts at bit `bit` of `metadata_addr`: the inverse of the metadata address mapping.
pub fn contiguous_meta_address_to_address(metadata_spec: &SideMetadataSpec, metadata_addr: Address, bit: u8) -> (r: Address)
    requires
        metadata_spec.wf(),
        metadata_addr >= metadata_spec.offset.value_spec(),
        metadata_spec.log_num_of_bits <= 3 ==> metadata_spec.log_num_of_bits <= metadata_spec.log_bytes_in_region,
        0 <= meta_to_data_spec(*metadata_spec, metadata_addr as int, bit as int) <= u64::MAX,
    ensures
        r == meta_to_data_spec(*metadata_spec, metadata_addr as int, bit as int),
{
    let spec = metadata_spec;
    let rel = metadata_addr - spec.get_absolute_offset();
    let region_size = pow2_u64(spec.log_bytes_in_region as u64);
    proof {
        lemma_pow2_pos(spec.log_bytes_in_region as nat);
    }
    if spec.log_num_of_bits <= 3 {
        let k = pow2_u64((3 - spec.log_num_of_bits) as u64);
        let bit_unit = pow2_u64((spec.log_bytes_in_region - spec.log_num_of_bits) as u64);
        proof {
            lemma_mul_nonnegative(rel as int, k as int);
            lemma_mul_nonnegative(rel * k, region_size as int);
            lemma_mul_nonnegative(bit as int, bit_unit as int);
            if rel * k > 0 {
                lemma_mul_increases(region_size as int, rel * k);
                lemma_mul_is_commutative(region_size as int, rel * k);
            }
        }
        let intermediate = rel * k;
        let base = intermediate * region_size;
        let extra = (bit as u64) * bit_unit;
        base + extra
    } else {
        let k = pow2_u64((spec.log_num_of_bits - 3) as u64);
        let intermediate = rel / k;
        proof {
            lemma_mul_nonnegative(intermediate as int, region_size as int);
            lemma_mul_nonnegative(bit as int, region_size as int);
        }
        let base = intermediate * region_size;
        let extra = (bit as u64) * region_size;
        base + extra
    }
}

/// The highest set bit of `value` in the bit range `[start, end)`, if any.
pub fn find_last_non_zero_bit_u8(value: u8, start: u8, end: u8) -> (r: Option<u8>)
    requires
        start <= end <= 8,
    ensures
        r is None <==> (forall|i: nat| start <= i < end ==> !bit_set(value as nat, i)),
        r matches Some(b) ==> start <= b < end && bit_set(value as nat, b as nat)
            && (forall|i: nat| b < i < end ==> !bit_set(value as nat, i)),
{
    let mut i: u8 = end;
    while i > start
        invariant
            start <= i <= end <= 8,
            forall|j: nat| i <= j < end ==> !bit_set(value as nat, j),
        decreases i,
    {
        i = i - 1;
        let d = pow2_u64(i as u64);
        if (value as u64 / d) % 2 == 1 {
            assert(bit_set(value as nat, i as nat));
            return Some(i);
        }
    }
    None
}

/// The highest set bit of the word `value` in the bit range `[start, end)`, if any.
pub fn find_last_non_zero_bit_u64(value: u64, start: u8, end: u8) -> (r: Option<u8>)
    requires
        start <= end <= 64,
    ensures
        r is None <==> (forall|i: nat| start <= i < end ==> !bit_set(value as nat, i)),
        r matches Some(b) ==> start <= b < end && bit_set(value as nat, b as nat)
            && (forall|i: nat| b < i < end ==> !bit_set(value as nat, i)),
{
    let mut i: u8 = end;
    while i > start
        invariant
            start <= i <= end <= 64,
            forall|j: nat| i <= j < end ==> !bit_set(value as nat, j),
        decreases i,
    {
        i = i - 1;
        let d = pow2_u64(i as u64);
        if (value / d) % 2 == 1 {
            assert(bit_set(value as nat, i as nat));
            return Some(i);
        }
    }
    None
}

/// Bit `8 * k + j` of the little-endian value of the bytes `s` is bit `j` of
/// byte `k`.
pub proof fn lemma_le_bit(s: Seq<u8>, k: int, j: nat)
    requires
        0 <= k < s.len(),
        j < 8,
    ensures
        bit_set(le_value(s), (8 * k + j) as nat) == bit_set(s[k] as nat, j),
    decreases k,
{
    let a = s[0] as int;
    let b = le_value(s.drop_first()) as int;
    let v = le_value(s) as int;
    assert(v == a + 256 * b);
    lemma2_to64();
    if k == 0 {
        let p = pow2(j) as int;
        let q = pow2((8 - j) as nat) as int;
        lemma_pow2_adds(j, (8 - j) as nat);
        lemma_pow2_pos(j);
        assert(p * q == 256);
        lemma_fundamental_div_mod(a, p);
        let x = a / p + q * b;
        assert(v == x * p + a % p) by (nonlinear_arith)
            requires v == a + 256 * b, a == p * (a / p) + a % p, p * q == 256, x == a / p + q * b;
        lemma_mod_bound(a, p);
        lemma_fundamental_div_mod_converse(v, p, x, a % p);
        assert(q % 2 == 0) by {
            lemma_pow2_adds(1, (7 - j) as nat);
            assert(q == 2 * pow2((7 - j) as nat));
        }
        let q2 = q / 2;
        assert(x == 2 * (q2 * b) + a / p) by (nonlinear_arith)
            requires x == a / p + q * b, q == 2 * q2;
        lemma_mod_multiples_vanish(q2 * b, a / p, 2);
        assert(8 * k + j == j);
    } else {
        let t = s.drop_first();
        lemma_le_bit(t, k - 1, j);
        assert(t[k - 1] == s[k]);
        let e = (8 * (k - 1) + j) as nat;
        lemma_pow2_adds(8, e);
        assert(8 + e == 8 * k + j);
        lemma_pow2_pos(e);
        lemma_fundamental_div_mod_converse(v, 256, b, a);
        lemma_div_denominator(v, 256, pow2(e) as int);
    }
}

} // verus!

verus! {

/// Mapping a data address to its metadata address and bit, and back,
/// gives the start of the data address's region.
pub proof fn lemma_meta_address_round_trip(spec: SideMetadataSpec, data_addr: Address)
    requires
        spec.wf(),
        spec.log_num_of_bits <= 3 ==> spec.log_num_of_bits <= spec.log_bytes_in_region,
    ensures
        meta_to_data_spec(spec, spec.meta_addr_spec(data_addr as int), spec.lshift_spec(data_addr as int))
            == align_down_spec(data_addr as int, pow2(spec.log_bytes_in_region as nat) as int),
{
    let lbr = spec.log_bytes_in_region as nat;
    let lb = spec.log_num_of_bits as nat;
    let r = pow2(lbr) as int;
    lemma_pow2_pos(lbr);
    let a = data_addr as int;
    let q = a / r;
    lemma_align_facts(a, r);
    lemma_fundamental_div_mod(a, r);
    assert(spec.region_index(a) == q);
    if lb <= 3 {
        let s = pow2((3 - lb) as nat) as int;
        let l = pow2(lb) as int;
        lemma_pow2_pos((3 - lb) as nat);
        lemma_pow2_pos(lb);
        lemma_pow2_pos((lbr - lb) as nat);
        lemma_pow2_adds(lb, (lbr - lb) as nat);
        assert(l * pow2((lbr - lb) as nat) == r);
        let rel = q / s;
        assert(spec.meta_rel_spec(a) == rel);
        let sh = if lb >= 3 { 0 } else { (q % s) * l };
        if lb == 3 {
            lemma2_to64();
            assert(s == 1);
            lemma_fundamental_div_mod(q, 1);
            lemma_mod_bound(q, 1);
            assert(q % s == 0);
            assert(sh == (q % s) * l);
        }
        assert(spec.lshift_spec(a) == sh);
        lemma_fundamental_div_mod(q, s);
        let data = rel * s * r + sh * pow2((lbr - lb) as nat);
        assert(meta_to_data_spec(spec, spec.meta_addr_spec(a), spec.lshift_spec(a)) == data);
        calc! { (==)
            data; {}
            rel * s * r + (q % s) * l * pow2((lbr - lb) as nat); {
                lemma_mul_is_associative(q % s, l, pow2((lbr - lb) as nat) as int);
            }
            rel * s * r + (q % s) * r; {
                lemma_mul_is_commutative(rel, s);
                lemma_mul_is_distributive_add_other_way(r, s * rel, q % s);
            }
            (s * rel + q % s) * r; {}
            q * r; {
                lemma_mul_is_commutative(q, r);
            }
            r * q;
        }
    } else {
        let k = pow2((lb - 3) as nat) as int;
        lemma_pow2_pos((lb - 3) as nat);
        assert(spec.meta_rel_spec(a) == q * k);
        lemma_div_multiples_vanish(q, k);
        lemma_mul_is_commutative(q, k);
        assert(spec.lshift_spec(a) == 0);
        assert(meta_to_data_spec(spec, spec.meta_addr_spec(a), 0) == ((q * k) / k) * r);
        lemma_mul_is_commutative(q, r);
    }
}

} // verus!
