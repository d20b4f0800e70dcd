//! Alignment and page arithmetic.
use vstd::prelude::*;

verus! {

/// `align` is a positive power of two not above 2^63.
pub open spec fn is_power_of_two(align: u64) -> bool {
    exists|k: nat| k < 64 && vstd::arithmetic::power2::pow2(k) == align
}

/// `value` rounded down to a multiple of `align`.
pub open spec fn align_down_spec(value: int, align: int) -> int {
    value - value % align
}

/// `value` rounded up to a multiple of `align`.
pub open spec fn align_up_spec(value: int, align: int) -> int {
    if value % align == 0 { value } else { value - value % align + align }
}

/// Facts about rounding a natural number down or up to a multiple.
pub proof fn lemma_align_facts(v: int, a: int)
    requires
        v >= 0,
        a > 0,
    ensures
        0 <= v % a < a,
        v % a <= v,
        (v - v % a) % a == 0,
        (v - v % a + a) % a == 0,
        (v - v % a) == a * (v / a),
{
    vstd::arithmetic::div_mod::lemma_fundamental_div_mod(v, a);
    vstd::arithmetic::div_mod::lemma_mod_bound(v, a);
    vstd::arithmetic::div_mod::lemma_div_pos_is_pos(v, a);
    vstd::arithmetic::mul::lemma_mul_nonnegative(a, v / a);
    vstd::arithmetic::div_mod::lemma_mod_multiples_basic(v / a, a);
    vstd::arithmetic::div_mod::lemma_mod_multiples_basic(v / a + 1, a);
    vstd::arithmetic::mul::lemma_mul_is_distributive_add_other_way(a, v / a, 1);
    vstd::arithmetic::mul::lemma_mul_is_commutative(a, v / a);
    vstd::arithmetic::mul::lemma_mul_is_commutative(a, v / a + 1);
}

/// Round `val` down to a multiple of `align`.
pub fn raw_align_down(val: u64, align: u64) -> (r: u64)
    requires
        align > 0,
    ensures
        r == align_down_spec(val as int, align as int),
        r <= val,
        r % align == 0,
        val - r < align,
{
    proof {
        lemma_align_facts(val as int, align as int);
    }
    val - val % align
}

/// Round `val` up to a multiple of `align`.
pub fn raw_align_up(val: u64, align: u64) -> (r: u64)
    requires
        align > 0,
        align_up_spec(val as int, align as int) <= u64::MAX,
    ensures
        r == align_up_spec(val as int, align as int),
        r >= val,
        r % align == 0,
        r - val < align,
{
    let rem = val % align;
    proof {
        lemma_align_facts(val as int, align as int);
    }
    if rem == 0 {
        val
    } else {
        proof {
            lemma_align_facts(val as int, align as int);
        }
        val - rem + align
    }
}

/// Is `val` a multiple of `align`?
pub fn raw_is_aligned(val: u64, align: u64) -> (r: bool)
    requires
        align > 0,
    ensures
        r == (val % align == 0),
{
    val % align == 0
}

/// The number of bytes in `pages` pages.
pub fn pages_to_bytes(pages: u64) -> (r: u64)
    requires
        pages * 4096 <= u64::MAX,
    ensures
        r == pages * 4096,
{
    pages * 4096
}

/// The number of pages needed to hold `bytes` bytes (rounding up).
pub fn bytes_to_pages_up(bytes: u64) -> (r: u64)
    requires
        bytes + 4095 <= u64::MAX,
    ensures
        r == (bytes + 4095) / 4096,
{
    (bytes + 4095) / 4096
}

} // verus!
