//! Visiting the set bits of metadata memory: bytes up to the first word
//! boundary one at a time, then whole words while a word fits before the end
//! (a word's bits are visited at the word's address, numbered 0 to 63), then
//! the remaining bytes.
use vstd::prelude::*;
use crate::address::Address;
use vstd::arithmetic::power2::{pow2, lemma_pow2_pos, lemma_pow2_adds, lemma2_to64};
use crate::memory::{MemoryRegion, le_value};
use super::helpers::bit_set;
use super::spec::pow2_u64;

verus! {

/// The visits of the set bits among the bits `[lo, hi)` of the value `v` read
/// at `addr`: `(addr, i)` for each set bit `i`, lowest first.
pub open spec fn bit_visits(addr: Address, v: nat, lo: nat, hi: nat) -> Seq<(Address, u8)>
    decreases hi - lo,
{
    if hi <= lo {
        Seq::empty()
    } else {
        let rest = bit_visits(addr, v, lo, (hi - 1) as nat);
        if bit_set(v, (hi - 1) as nat) { rest.push((addr, (hi - 1) as u8)) } else { rest }
    }
}

/// The visits of a scan of the metadata bytes `[c, end)` of `mem`: a whole
/// word at a word boundary where a word fits before `end`, else a byte.
pub open spec fn scan_visits(mem: MemoryRegion, c: int, end: int) -> Seq<(Address, u8)>
    decreases end - c,
{
    if c >= end {
        Seq::empty()
    } else if c % 8 == 0 && c + 8 < end {
        bit_visits(c as Address, mem.le_at(c, 8), 0, 64) + scan_visits(mem, c + 8, end)
    } else {
        bit_visits(c as Address, mem.byte(c) as nat, 0, 8) + scan_visits(mem, c + 1, end)
    }
}

/// The metadata byte that a visit `(w, j)` names: bit `j` of the word or
/// byte at `w` lies in the byte `w + j / 8`.
pub open spec fn visit_byte(v: (Address, u8)) -> int {
    v.0 as int + (v.1 / 8) as int
}

/// The bit of its byte that a visit names.
pub open spec fn visit_bit(v: (Address, u8)) -> int {
    (v.1 % 8) as int
}

/// Some visit of `vs` names bit `i` of the metadata byte at `a`.
pub open spec fn visited(vs: Seq<(Address, u8)>, a: int, i: int) -> bool {
    exists|k: int| 0 <= k < vs.len() && visit_byte(#[trigger] vs[k]) == a && visit_bit(vs[k]) == i
}

/// Bit `j` of a little-endian value is bit `j % 8` of its byte `j / 8`.
proof fn lemma_le_bit(s: Seq<u8>, j: nat)
    requires
        j < 8 * s.len(),
    ensures
        bit_set(le_value(s), j) == bit_set(s[j as int / 8] as nat, j % 8),
    decreases s.len(),
{
    let t = s.drop_first();
    let v = le_value(s);
    let r = le_value(t);
    let s0 = s[0] as nat;
    assert(v == s0 + 256 * r);
    lemma2_to64();
    lemma_pow2_pos(j);
    if j < 8 {
        let p = pow2(j) as int;
        let e = pow2((8 - j) as nat) as int;
        lemma_pow2_adds(j, (8 - j) as nat);
        assert(p * e == 256);
        lemma_pow2_adds(1, (7 - j) as nat);
        let h = pow2((7 - j) as nat) as int;
        assert(e == 2 * h);
        vstd::arithmetic::div_mod::lemma_fundamental_div_mod(s0 as int, p);
        vstd::arithmetic::div_mod::lemma_mod_bound(s0 as int, p);
        assert(v == (s0 as int / p + e * r) * p + s0 as int % p) by (nonlinear_arith)
            requires
                v == s0 + 256 * r,
                p * e == 256,
                s0 as int == p * (s0 as int / p) + s0 as int % p;
        vstd::arithmetic::div_mod::lemma_fundamental_div_mod_converse(v as int, p, s0 as int / p + e * r, s0 as int % p);
        assert(e * r == 2 * (h * r)) by (nonlinear_arith)
            requires e == 2 * h;
        vstd::arithmetic::div_mod::lemma_mod_multiples_vanish(h * r, s0 as int / p, 2);
        assert(j as int / 8 == 0);
    } else {
        vstd::arithmetic::div_mod::lemma_fundamental_div_mod_converse(v as int, 256, r as int, s0 as int);
        lemma_pow2_adds(8, (j - 8) as nat);
        lemma_pow2_pos((j - 8) as nat);
        vstd::arithmetic::div_mod::lemma_div_denominator(v as int, 256, pow2((j - 8) as nat) as int);
        lemma_le_bit(t, (j - 8) as nat);
        assert(t[(j - 8) as int / 8] == s[j as int / 8]);
    }
}

/// The visits of the set bits of a value: each names a set bit of `[lo, hi)`
/// at `addr`, and each set bit of `[lo, hi)` is visited.
proof fn lemma_bit_visits_members(addr: Address, v: nat, lo: nat, hi: nat)
    requires
        hi <= 64,
    ensures
        forall|k: int| 0 <= k < bit_visits(addr, v, lo, hi).len() ==> {
            &&& (#[trigger] bit_visits(addr, v, lo, hi)[k]).0 == addr
            &&& lo <= bit_visits(addr, v, lo, hi)[k].1 < hi
            &&& bit_set(v, bit_visits(addr, v, lo, hi)[k].1 as nat)
        },
        forall|j: nat| lo <= j < hi && bit_set(v, j) ==>
            exists|k: int| 0 <= k < bit_visits(addr, v, lo, hi).len() && #[trigger] bit_visits(addr, v, lo, hi)[k] == (addr, j as u8),
    decreases hi - lo,
{
    if hi > lo {
        let h1 = (hi - 1) as nat;
        lemma_bit_visits_members(addr, v, lo, h1);
        let rest = bit_visits(addr, v, lo, h1);
        let all = bit_visits(addr, v, lo, hi);
        assert forall|j: nat| lo <= j < hi && bit_set(v, j) implies
            exists|k: int| 0 <= k < all.len() && #[trigger] all[k] == (addr, j as u8) by {
            if j < h1 {
                let k = choose|k: int| 0 <= k < rest.len() && #[trigger] rest[k] == (addr, j as u8);
                assert(all[k] == rest[k]);
            } else {
                assert(all[all.len() - 1] == (addr, j as u8));
            }
        }
        assert forall|k: int| 0 <= k < all.len() implies {
            &&& (#[trigger] all[k]).0 == addr
            &&& lo <= all[k].1 < hi
            &&& bit_set(v, all[k].1 as nat)
        } by {
            if k < rest.len() {
                assert(all[k] == rest[k]);
            }
        }
    }
}

/// A scan of the metadata bytes `[start, end)` visits exactly their set
/// bits: every visit names a set bit of a byte in the range, and every set
/// bit of every byte in the range is visited.
pub proof fn lemma_scan_visits_set_bits(mem: MemoryRegion, start: int, end: int)
    requires
        mem.wf(),
        0 <= start,
        start < end ==> mem.contains_range(start, end - start),
    ensures
        forall|k: int| 0 <= k < scan_visits(mem, start, end).len() ==> {
            let v = #[trigger] scan_visits(mem, start, end)[k];
            &&& start <= visit_byte(v) < end
            &&& bit_set(mem.byte(visit_byte(v)) as nat, visit_bit(v) as nat)
        },
        forall|a: int, i: int| start <= a < end && 0 <= i < 8 && #[trigger] bit_set(mem.byte(a) as nat, i as nat)
            ==> visited(scan_visits(mem, start, end), a, i),
    decreases end - start,
{
    if start < end {
        let word = start % 8 == 0 && start + 8 < end;
        let next = if word { start + 8 } else { start + 1 };
        let n: nat = if word { 64 } else { 8 };
        let val = if word { mem.le_at(start, 8) } else { mem.byte(start) as nat };
        let head = bit_visits(start as Address, val, 0, n);
        lemma_scan_visits_set_bits(mem, next, end);
        lemma_bit_visits_members(start as Address, val, 0, n);
        let rest = scan_visits(mem, next, end);
        let all = scan_visits(mem, start, end);
        assert(start <= u64::MAX);
        assert(all == head + rest);
        let r8 = mem.range(start, 8);
        assert forall|j: nat| j < n implies bit_set(val, j) == #[trigger] bit_set(mem.byte(start + j as int / 8) as nat, j % 8) by {
            if word {
                lemma_le_bit(r8, j);
                assert(r8[j as int / 8] == mem.byte(start + j as int / 8));
            }
        }
        assert forall|k: int| 0 <= k < all.len() implies {
            let v = #[trigger] all[k];
            &&& start <= visit_byte(v) < end
            &&& bit_set(mem.byte(visit_byte(v)) as nat, visit_bit(v) as nat)
        } by {
            if k < head.len() {
                assert(all[k] == head[k]);
                let j = head[k].1 as nat;
                assert(bit_set(mem.byte(start + j as int / 8) as nat, j % 8));
            } else {
                assert(all[k] == rest[k - head.len()]);
            }
        }
        assert forall|a: int, i: int| start <= a < end && 0 <= i < 8 && #[trigger] bit_set(mem.byte(a) as nat, i as nat)
            implies visited(all, a, i) by {
            if a < next {
                let j: nat = (8 * (a - start) + i) as nat;
                assert(j as int / 8 == a - start);
                assert(j % 8 == i);
                assert(bit_set(mem.byte(start + j as int / 8) as nat, j % 8));
                let k = choose|k: int| 0 <= k < head.len() && #[trigger] head[k] == (start as Address, j as u8);
                assert(all[k] == head[k]);
                assert(visit_byte(all[k]) == a && visit_bit(all[k]) == i);
            } else {
                let k = choose|k: int| 0 <= k < rest.len() && visit_byte(#[trigger] rest[k]) == a && visit_bit(rest[k]) == i;
                assert(all[head.len() + k] == rest[k]);
            }
        }
    }
}

/// The visits of the set bits among the bits `[lo, hi)` of `value`, read at `addr`.
fn bits_of(addr: Address, value: u64, lo: u8, hi: u8) -> (r: Vec<(Address, u8)>)
    requires
        lo <= hi <= 64,
    ensures
        r@ == bit_visits(addr, value as nat, lo as nat, hi as nat),
{
    let mut visits: Vec<(Address, u8)> = Vec::new();
    let mut i: u8 = lo;
    while i < hi
        invariant
            lo <= i <= hi <= 64,
            visits@ == bit_visits(addr, value as nat, lo as nat, i as nat),
        decreases hi - i,
    {
        let d = pow2_u64(i as u64);
        let set = (value / d) % 2 == 1;
        assert(set == bit_set(value as nat, i as nat));
        if set {
            visits.push((addr, i));
        }
        i = i + 1;
        assert(bit_visits(addr, value as nat, lo as nat, i as nat) == {
            let rest = bit_visits(addr, value as nat, lo as nat, (i - 1) as nat);
            if bit_set(value as nat, (i - 1) as nat) { rest.push((addr, (i - 1) as u8)) } else { rest }
        });
    }
    visits
}

/// The visits of the set bits of the metadata bytes `[meta_start, meta_end)`,
/// in the order of a scan: bytes up to a word boundary, then words while a
/// word fits before the end, then bytes.
pub fn non_zero_bits_in_metadata_bytes(mem: &MemoryRegion, meta_start: Address, meta_end: Address) -> (r: Vec<(Address, u8)>)
    requires
        mem.wf(),
        meta_start < meta_end ==> mem.contains_range(meta_start as int, meta_end - meta_start),
    ensures
        r@ == scan_visits(*mem, meta_start as int, meta_end as int),
        forall|k: int| 0 <= k < r@.len() ==> {
            let v = #[trigger] r@[k];
            &&& meta_start <= visit_byte(v) < meta_end
            &&& bit_set(mem.byte(visit_byte(v)) as nat, visit_bit(v) as nat)
        },
        forall|a: int, i: int| meta_start <= a < meta_end && 0 <= i < 8 && #[trigger] bit_set(mem.byte(a) as nat, i as nat)
            ==> visited(r@, a, i),
{
    proof {
        lemma_scan_visits_set_bits(*mem, meta_start as int, meta_end as int);
    }
    let mut visits: Vec<(Address, u8)> = Vec::new();
    let mut cursor = meta_start;
    while cursor < meta_end
        invariant
            mem.wf(),
            meta_start <= cursor,
            meta_start < meta_end ==> mem.contains_range(meta_start as int, meta_end - meta_start),
            visits@ + scan_visits(*mem, cursor as int, meta_end as int) == scan_visits(*mem, meta_start as int, meta_end as int),
        decreases meta_end - cursor,
    {
        let ghost before = visits@;
        if cursor % 8 == 0 && meta_end - cursor > 8 {
            let word = mem.load_le(cursor, 8);
            let mut v = bits_of(cursor, word, 0, 64);
            let ghost vs = v@;
            visits.append(&mut v);
            proof {
                assert(visits@ == before + vs);
                assert(before + vs + scan_visits(*mem, cursor + 8, meta_end as int) =~= before + scan_visits(*mem, cursor as int, meta_end as int));
            }
            cursor = cursor + 8;
        } else {
            let byte = mem.load_u8(cursor);
            let mut v = bits_of(cursor, byte as u64, 0, 8);
            let ghost vs = v@;
            visits.append(&mut v);
            proof {
                assert(visits@ == before + vs);
                assert(before + vs + scan_visits(*mem, cursor + 1, meta_end as int) =~= before + scan_visits(*mem, cursor as int, meta_end as int));
            }
            cursor = cursor + 1;
        }
    }
    proof {
        assert(scan_visits(*mem, cursor as int, meta_end as int) == Seq::<(Address, u8)>::empty());
        assert(visits@ + Seq::<(Address, u8)>::empty() == visits@);
    }
    visits
}

/// Hand each set bit of the metadata bytes `[meta_start, meta_end)` to
/// `visit_bit`, in the order of `non_zero_bits_in_metadata_bytes`: the
/// callback is called on each visit of `scan_visits`.
pub fn scan_non_zero_bits_in_metadata_bytes<F: FnMut(Address, u8)>(mem: &MemoryRegion, meta_start: Address,
    meta_end: Address, visit_bit: &mut F)
    requires
        mem.wf(),
        meta_start < meta_end ==> mem.contains_range(meta_start as int, meta_end - meta_start),
        forall|f: F, a: Address, b: u8| call_requires(f, (a, b)),
    ensures
        forall|k: int| 0 <= k < scan_visits(*mem, meta_start as int, meta_end as int).len() ==> call_ensures(
            *old(visit_bit),
            (#[trigger] scan_visits(*mem, meta_start as int, meta_end as int)[k].0,
                scan_visits(*mem, meta_start as int, meta_end as int)[k].1),
            (),
        ),
{
    let visits = non_zero_bits_in_metadata_bytes(mem, meta_start, meta_end);
    let ghost f0 = *visit_bit;
    let mut i: usize = 0;
    while i < visits.len()
        invariant
            forall|f: F, a: Address, b: u8| call_requires(f, (a, b)),
            i <= visits@.len(),
            *visit_bit == f0,
            forall|k: int| 0 <= k < i ==> call_ensures(f0, (#[trigger] visits@[k].0, visits@[k].1), ()),
        decreases visits.len() - i,
    {
        let (a, b) = visits[i];
        visit_bit(a, b);
        i = i + 1;
    }
}

/// The visits of the set bits among the bits `[bit_start, bit_end)` of the
/// metadata byte at `meta_addr`, lowest first.
pub fn non_zero_bits_in_metadata_bits(mem: &MemoryRegion, meta_addr: Address, bit_start: u8, bit_end: u8) -> (r: Vec<(Address, u8)>)
    requires
        mem.contains(meta_addr as int),
        bit_start <= bit_end <= 8,
    ensures
        r@ == bit_visits(meta_addr, mem.byte(meta_addr as int) as nat, bit_start as nat, bit_end as nat),
        forall|k: int| 0 <= k < r@.len() ==> {
            &&& (#[trigger] r@[k]).0 == meta_addr
            &&& bit_start <= r@[k].1 < bit_end
            &&& bit_set(mem.byte(meta_addr as int) as nat, r@[k].1 as nat)
        },
        forall|i: u8| bit_start <= i < bit_end && bit_set(mem.byte(meta_addr as int) as nat, i as nat) ==>
            exists|k: int| 0 <= k < r@.len() && #[trigger] r@[k] == (meta_addr, i),
{
    proof {
        lemma_bit_visits_members(meta_addr, mem.byte(meta_addr as int) as nat, bit_start as nat, bit_end as nat);
        assert forall|i: u8| bit_start <= i < bit_end && bit_set(mem.byte(meta_addr as int) as nat, i as nat) implies
            exists|k: int| 0 <= k < bit_visits(meta_addr, mem.byte(meta_addr as int) as nat, bit_start as nat, bit_end as nat).len()
                && #[trigger] bit_visits(meta_addr, mem.byte(meta_addr as int) as nat, bit_start as nat, bit_end as nat)[k] == (meta_addr, i) by {
            assert(((i as nat) as u8) == i);
        }
    }
    let byte = mem.load_u8(meta_addr);
    bits_of(meta_addr, byte as u64, bit_start, bit_end)
}

/// Hand each set bit among the bits `[bit_start, bit_end)` of the metadata
/// byte at `meta_addr` to `visit_bit`, lowest first: the callback is called
/// on each visit of `bit_visits`.
pub fn scan_non_zero_bits_in_metadata_bits<F: FnMut(Address, u8)>(mem: &MemoryRegion, meta_addr: Address,
    bit_start: u8, bit_end: u8, visit_bit: &mut F)
    requires
        mem.contains(meta_addr as int),
        bit_start <= bit_end <= 8,
        forall|f: F, a: Address, b: u8| call_requires(f, (a, b)),
    ensures
        forall|k: int| 0 <= k < bit_visits(meta_addr, mem.byte(meta_addr as int) as nat, bit_start as nat, bit_end as nat).len()
            ==> call_ensures(
            *old(visit_bit),
            (#[trigger] bit_visits(meta_addr, mem.byte(meta_addr as int) as nat, bit_start as nat, bit_end as nat)[k].0,
                bit_visits(meta_addr, mem.byte(meta_addr as int) as nat, bit_start as nat, bit_end as nat)[k].1),
            (),
        ),
{
    let visits = non_zero_bits_in_metadata_bits(mem, meta_addr, bit_start, bit_end);
    let ghost f0 = *visit_bit;
    let mut i: usize = 0;
    while i < visits.len()
        invariant
            forall|f: F, a: Address, b: u8| call_requires(f, (a, b)),
            i <= visits@.len(),
            *visit_bit == f0,
            forall|k: int| 0 <= k < i ==> call_ensures(f0, (#[trigger] visits@[k].0, visits@[k].1), ()),
        decreases visits.len() - i,
    {
        let (a, b) = visits[i];
        visit_bit(a, b);
        i = i + 1;
    }
}

} // verus!
