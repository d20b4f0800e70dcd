//! What a bulk zero of side metadata does to the metadata values: the value
//! of every region from that of the start up to that of the end reads 0, and
//! every other value of the spec is unchanged.
use vstd::prelude::*;
use vstd::arithmetic::power2::{pow2, lemma2_to64, lemma_pow2_pos, lemma_pow2_adds};
use crate::memory::{MemoryRegion, lemma_le_value_of_digits};
use super::spec::SideMetadataSpec;
use super::helpers::meta_byte_mask_spec;
use super::access::{bits_zeroed, zeroed_byte, byte_interval_mask, field_get};

verus! {

/// A field of `m` (1, 3 or 15) at bit `s` of a byte whose bits `[lo, hi)`
/// are cleared: it reads 0 if it lies inside them and keeps its value if it
/// lies outside them. Clearing all bits of a byte gives 0, and clearing none
/// keeps it.
proof fn lemma_byte_fields(b: u8, lo: u8, hi: u8, s: u8, m: u8)
    by (bit_vector)
    requires
        lo <= 8,
        hi <= 8,
        s < 8,
        m == 1 || m == 3 || m == 15,
    ensures
        lo <= s && ((m == 1 && s + 1 <= 8) || (m == 3 && s + 2 <= 8) || (m == 15 && s + 4 <= 8))
            ==> ((b & !(0xFFu8 << lo)) >> s) & m == 0,
        hi < 8 && lo <= s && ((m == 1 && s + 1 <= hi) || (m == 3 && s + 2 <= hi) || (m == 15 && s + 4 <= hi))
            ==> ((b & !((0xFFu8 << lo) & !(0xFFu8 << hi))) >> s) & m == 0,
        (m == 1 && s + 1 <= lo) || (m == 3 && s + 2 <= lo) || (m == 15 && s + 4 <= lo)
            ==> ((b & !(0xFFu8 << lo)) >> s) & m == (b >> s) & m,
        hi < 8 && ((m == 1 && (hi <= s || s + 1 <= lo)) || (m == 3 && (hi <= s || s + 2 <= lo))
            || (m == 15 && (hi <= s || s + 4 <= lo)))
            ==> ((b & !((0xFFu8 << lo) & !(0xFFu8 << hi))) >> s) & m == (b >> s) & m,
        b & !(0xFFu8 << 0u8) == 0,
        b & !((0xFFu8 << 0u8) & !(0xFFu8 << 0u8)) == b,
{
}

/// A field of `m` (1, 3 or 15) at bit `s` inside the cleared bits `[lo, hi)`
/// of a byte reads 0.
proof fn lemma_field_cleared(b: u8, lo: u8, hi: u8, s: u8, m: u8)
    requires
        lo <= s < 8,
        hi <= 8,
        (m == 1 && s + 1 <= hi) || (m == 3 && s + 2 <= hi) || (m == 15 && s + 4 <= hi),
    ensures
        field_get(b & !byte_interval_mask(lo, hi), s, m) == 0,
{
    lemma_byte_fields(b, lo, hi, s, m);
}

/// A field of `m` (1, 3 or 15) at bit `s` outside the cleared bits
/// `[lo, hi)` of a byte keeps its value.
proof fn lemma_field_kept(b: u8, lo: u8, hi: u8, s: u8, m: u8)
    requires
        lo <= 8,
        hi <= 8,
        s < 8,
        (m == 1 && (hi <= s || s + 1 <= lo)) || (m == 3 && (hi <= s || s + 2 <= lo))
            || (m == 15 && (hi <= s || s + 4 <= lo)),
    ensures
        field_get(b & !byte_interval_mask(lo, hi), s, m) == field_get(b, s, m),
{
    lemma_byte_fields(b, lo, hi, s, m);
}

/// Whole bytes: all bits cleared, or none.
proof fn lemma_whole_byte(b: u8)
    ensures
        b & !byte_interval_mask(0, 8) == 0,
        b & !byte_interval_mask(0, 0) == b,
{
    lemma_byte_fields(b, 0, 0, 0, 1);
}

impl SideMetadataSpec {
    /// The absolute position of the lowest metadata bit of `data_addr`,
    /// counting bits from address 0.
    pub open spec fn meta_bit_spec(self, data_addr: int) -> int {
        8 * self.meta_addr_spec(data_addr) + self.lshift_spec(data_addr)
    }

    /// The metadata bits of the regions follow one another: those of region
    /// `q` start `q` values after the spec's offset.
    proof fn lemma_meta_bit(self, a: int)
        requires
            self.wf(),
            a >= 0,
        ensures
            self.region_index(a) >= 0,
            self.meta_bit_spec(a) == 8 * self.offset.value_spec() + self.num_bits_spec() * self.region_index(a),
            self.log_num_of_bits < 3 ==> 0 <= self.lshift_spec(a) && self.lshift_spec(a) + self.num_bits_spec() <= 8,
            self.log_num_of_bits >= 3 ==> self.lshift_spec(a) == 0 && self.num_bits_spec() == 8 * self.bytes_per_value(),
    {
        lemma2_to64();
        let l = self.log_num_of_bits as nat;
        let q = self.region_index(a);
        lemma_pow2_pos(self.log_bytes_in_region as nat);
        vstd::arithmetic::div_mod::lemma_div_pos_is_pos(a, pow2(self.log_bytes_in_region as nat) as int);
        lemma_pow2_pos(l);
        if l < 3 {
            let k = pow2((3 - l) as nat) as int;
            let n = pow2(l) as int;
            lemma_pow2_adds((3 - l) as nat, l);
            assert(k * n == 8);
            vstd::arithmetic::div_mod::lemma_fundamental_div_mod(q, k);
            vstd::arithmetic::div_mod::lemma_mod_bound(q, k);
            assert(8 * (q / k) + (q % k) * n == n * q) by (nonlinear_arith)
                requires
                    k * n == 8,
                    q == k * (q / k) + q % k;
            assert((q % k) * n + n <= 8 && 0 <= (q % k) * n) by (nonlinear_arith)
                requires
                    k * n == 8,
                    0 <= q % k < k,
                    n > 0;
            assert(self.meta_rel_spec(a) == q / k);
            assert(self.lshift_spec(a) == (q % k) * n);
            assert(self.meta_bit_spec(a) == 8 * self.offset.value_spec() + 8 * (q / k) + (q % k) * n);
        } else {
            let m = pow2((l - 3) as nat) as int;
            lemma_pow2_adds(3, (l - 3) as nat);
            assert(pow2(l) == 8 * m);
            assert(8 * (q * m) == pow2(l) * q) by (nonlinear_arith)
                requires
                    pow2(l) == 8 * m;
            if l == 3 {
                vstd::arithmetic::div_mod::lemma_div_basics(q);
                assert(q * m == q);
            }
            assert(self.meta_rel_spec(a) == q * m);
            assert(self.meta_bit_spec(a) == 8 * self.offset.value_spec() + 8 * (q * m));
        }
    }

    /// After the metadata bits from those of `start` up to those of `end`
    /// were cleared (as `bzero_metadata` does for `[start, end)`), the value
    /// of `a` reads 0 if its region lies from that of `start` up to that of
    /// `end`, and is unchanged otherwise.
    proof fn lemma_bzero_value_at(self, old_mem: MemoryRegion, new_mem: MemoryRegion, start: int, end: int, a: int)
        requires
            self.wf(),
            0 <= start <= end,
            a >= 0,
            self.accessible(old_mem, a),
            bits_zeroed(old_mem, new_mem, self.meta_addr_spec(start), self.lshift_spec(start) as u8,
                self.meta_addr_spec(end), self.lshift_spec(end) as u8),
        ensures
            self.value_in(new_mem, a) == if self.region_index(start) <= self.region_index(a) < self.region_index(end) {
                0
            } else {
                self.value_in(old_mem, a)
            },
    {
        lemma2_to64();
        self.lemma_meta_bit(start);
        self.lemma_meta_bit(end);
        self.lemma_meta_bit(a);
        let n = self.num_bits_spec() as int;
        let qs = self.region_index(start);
        let qe = self.region_index(end);
        let qa = self.region_index(a);
        let sa = self.meta_addr_spec(start);
        let ea = self.meta_addr_spec(end);
        let sb = self.lshift_spec(start) as u8;
        let eb = self.lshift_spec(end) as u8;
        let x = self.meta_addr_spec(a);
        let inside = qs <= qa < qe;
        lemma_pow2_pos(self.log_num_of_bits as nat);
        if inside {
            assert(n * qs <= n * qa && n * qa + n <= n * qe) by (nonlinear_arith)
                requires qs <= qa < qe, n > 0;
        } else if qa < qs {
            assert(n * qa + n <= n * qs) by (nonlinear_arith)
                requires qa < qs, n > 0;
        } else {
            assert(n * qe <= n * qa) by (nonlinear_arith)
                requires qe <= qa, n > 0;
        }
        if self.log_num_of_bits < 3 {
            let s = self.lshift_spec(a) as u8;
            let m = meta_byte_mask_spec(self.log_num_of_bits as nat) as u8;
            let b = old_mem.byte(x);
            assert(old_mem.contains(x));
            assert(new_mem.byte(x) == zeroed_byte(b, x, sa, sb, ea, eb));
            assert(self.log_num_of_bits == 0 ==> m == 1 && n == 1);
            assert(self.log_num_of_bits == 1 ==> m == 3 && n == 2);
            assert(self.log_num_of_bits == 2 ==> m == 15 && n == 4);
            if x < sa || x > ea {
            } else {
                let lo: u8 = if x == sa { sb } else { 0u8 };
                let hi: u8 = if x == ea { eb } else { 8u8 };
                assert(zeroed_byte(b, x, sa, sb, ea, eb) == b & !byte_interval_mask(lo, hi));
                if inside {
                    lemma_field_cleared(b, lo, hi, s, m);
                } else {
                    lemma_field_kept(b, lo, hi, s, m);
                }
            }
        } else {
            let nb = self.bytes_per_value() as int;
            assert(sb == 0 && eb == 0);
            assert(old_mem.contains_range(x, nb));
            assert(8 * x + n == 8 * (x + nb));
            if inside {
                assert forall|i: int| 0 <= i < nb implies #[trigger] new_mem.range(x, nb)[i] == 0 by {
                    let y = x + i;
                    assert(old_mem.contains(y));
                    assert(new_mem.range(x, nb)[i] == new_mem.byte(y));
                    lemma_whole_byte(old_mem.byte(y));
                    assert(new_mem.byte(y) == zeroed_byte(old_mem.byte(y), y, sa, sb, ea, eb));
                }
                let r = new_mem.range(x, nb);
                assert forall|i: int| 0 <= i < r.len() implies #[trigger] r[i] as nat == (0nat / pow2(8 * i as nat)) % 256 by {
                    lemma_pow2_pos(8 * i as nat);
                    vstd::arithmetic::div_mod::lemma_div_basics(pow2(8 * i as nat) as int);
                }
                lemma_le_value_of_digits(r, 0);
            } else {
                assert forall|i: int| 0 <= i < nb implies #[trigger] new_mem.range(x, nb)[i] == old_mem.range(x, nb)[i] by {
                    let y = x + i;
                    assert(old_mem.contains(y));
                    assert(new_mem.range(x, nb)[i] == new_mem.byte(y));
                    assert(old_mem.range(x, nb)[i] == old_mem.byte(y));
                    lemma_whole_byte(old_mem.byte(y));
                    assert(new_mem.byte(y) == zeroed_byte(old_mem.byte(y), y, sa, sb, ea, eb));
                }
                assert(new_mem.range(x, nb) =~= old_mem.range(x, nb));
            }
        }
    }

    /// A bulk zero of the metadata of `[start, end)`: the value of every
    /// address whose region lies from that of `start` up to (excluding) that
    /// of `end` reads 0, and every other value of the spec is unchanged.
    pub proof fn lemma_bzero_values(self, old_mem: MemoryRegion, new_mem: MemoryRegion, start: int, end: int)
        requires
            self.wf(),
            0 <= start <= end,
            bits_zeroed(old_mem, new_mem, self.meta_addr_spec(start), self.lshift_spec(start) as u8,
                self.meta_addr_spec(end), self.lshift_spec(end) as u8),
        ensures
            forall|a: int| #![trigger self.value_in(new_mem, a)]
                a >= 0 && self.accessible(old_mem, a) && self.region_index(start) <= self.region_index(a) < self.region_index(end)
                ==> self.value_in(new_mem, a) == 0,
            forall|a: int| #![trigger self.value_in(new_mem, a)]
                a >= 0 && self.accessible(old_mem, a) && !(self.region_index(start) <= self.region_index(a) < self.region_index(end))
                ==> self.value_in(new_mem, a) == self.value_in(old_mem, a),
    {
        assert forall|a: int| a >= 0 && self.accessible(old_mem, a) implies #[trigger] self.value_in(new_mem, a)
            == if self.region_index(start) <= self.region_index(a) < self.region_index(end) {
                0
            } else {
                self.value_in(old_mem, a)
            } by {
            self.lemma_bzero_value_at(old_mem, new_mem, start, end, a);
        }
    }
}

} // verus!
