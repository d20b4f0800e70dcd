//! Breaking a range in a bitmap into whole-grain and sub-grain ranges. A grain
//! is the unit at which a bitmap is accessed: a byte, a word, or another
//! power-of-two number of bytes.
use vstd::prelude::*;
use vstd::arithmetic::power2::{pow2, lemma2_to64, lemma_pow2_pos, lemma_pow2_adds};
use vstd::arithmetic::div_mod::*;
use crate::address::Address;
use crate::conversions::{align_down_spec, align_up_spec, lemma_align_facts, raw_align_down, raw_align_up};
use super::spec::pow2_u64;

verus! {

/// Offset of bits in a grain.
pub type BitOffset = u64;

/// The granularity of a bitmap access: `2^log_bytes` bytes.
#[derive(Debug, Clone, Copy, PartialEq, Eq, Structural)]
pub struct Granularity {
    log_bytes: usize,
}

impl Granularity {
    /// log2 of the number of bytes in a grain.
    pub closed spec fn log_bytes_spec(self) -> nat {
        self.log_bytes as nat
    }

    /// The number of bytes in a grain.
    pub open spec fn bytes_spec(self) -> nat {
        pow2(self.log_bytes_spec())
    }

    /// The number of bits in a grain.
    pub open spec fn bits_spec(self) -> nat {
        pow2(self.log_bytes_spec() + 3)
    }

    /// The grain size in bits fits in a machine word.
    pub open spec fn wf(self) -> bool {
        self.log_bytes_spec() + 3 < 64
    }

    /// A granularity of `2^log_bytes` bytes.
    pub fn of_log_bytes(log_bytes: usize) -> (r: Granularity)
        ensures
            r.log_bytes_spec() == log_bytes,
    {
        Self { log_bytes }
    }

    /// A granularity of `2^(log_bits / 8)` bytes: `log_bits` shifted right by
    /// three, the log2 of the bits in a byte.
    pub fn of_log_bits(log_bits: usize) -> (r: Granularity)
        ensures
            r.log_bytes_spec() == log_bits / 8,
    {
        Self { log_bytes: log_bits / 8 }
    }

    /// log2 of the number of bytes in a grain.
    pub fn log_bytes(&self) -> (r: usize)
        ensures
            r == self.log_bytes_spec(),
    {
        self.log_bytes
    }

    /// log2 of the number of bits in a grain.
    pub fn log_bits(&self) -> (r: usize)
        requires
            self.wf(),
        ensures
            r == self.log_bytes_spec() + 3,
    {
        self.log_bytes + 3
    }

    /// The number of bytes in a grain.
    pub fn bytes(&self) -> (r: u64)
        requires
            self.wf(),
        ensures
            r == self.bytes_spec(),
            r > 0,
    {
        pow2_u64(self.log_bytes as u64)
    }

    /// The number of bits in a grain.
    pub fn bits(&self) -> (r: u64)
        requires
            self.wf(),
        ensures
            r == self.bits_spec(),
            r == 8 * self.bytes_spec(),
    {
        proof {
            lemma_pow2_adds(self.log_bytes as nat, 3);
            lemma2_to64();
        }
        pow2_u64(self.log_bytes as u64 + 3)
    }
}

/// A bit address: bit `bit` counted from the lowest bit of the grain at `addr`.
#[derive(Debug, Clone, Copy, PartialEq, Eq, Structural)]
pub struct BitAddress {
    pub addr: Address,
    pub bit: BitOffset,
}

/// The absolute position of a bit: bits counted from address 0.
pub open spec fn bit_position(ba: BitAddress) -> int {
    ba.addr * 8 + ba.bit
}

impl BitAddress {
    /// The address is aligned to the grain and the bit offset is inside the grain.
    pub open spec fn normalized_spec(self, g: Granularity) -> bool {
        self.addr as int % g.bytes_spec() as int == 0 && self.bit < g.bits_spec()
    }

    /// The bit address is at the start of a grain.
    pub fn is_grain_aligned(&self, granularity: Granularity) -> (r: bool)
        requires
            granularity.wf(),
        ensures
            r == (self.bit == 0 && self.addr as int % granularity.bytes_spec() as int == 0),
    {
        self.bit == 0 && crate::conversions::raw_is_aligned(self.addr, granularity.bytes())
    }

    /// The address is aligned to the grain and the bit offset is inside the grain.
    pub fn is_normalized(&self, granularity: Granularity) -> (r: bool)
        requires
            granularity.wf(),
        ensures
            r == self.normalized_spec(granularity),
    {
        crate::conversions::raw_is_aligned(self.addr, granularity.bytes()) && self.bit < granularity.bits()
    }

    /// The same bit, with the address aligned to the grain and the bit offset inside the grain.
    pub fn normalize(&self, granularity: Granularity) -> (r: BitAddress)
        requires
            granularity.wf(),
            self.bit + 8 * (self.addr as int % granularity.bytes_spec() as int) <= u64::MAX,
            self.addr + self.bit / 8 <= u64::MAX,
        ensures
            r.normalized_spec(granularity),
            bit_position(r) == bit_position(*self),
    {
        let bytes = granularity.bytes();
        let bits = granularity.bits();
        let aligned_addr = raw_align_down(self.addr, bytes);
        let rem_bytes = self.addr - aligned_addr;
        let rem_bits = self.bit + rem_bytes * 8;
        let bit = rem_bits % bits;
        proof {
            lemma_align_facts(rem_bits as int, bits as int);
            lemma_fundamental_div_mod(rem_bits as int, bits as int);
            lemma_align_facts(self.addr as int, bytes as int);
        }
        let carry_bits = rem_bits - bit;
        let ghost q = (rem_bits / bits) as int;
        let ghost qa = (self.addr / bytes) as int;
        proof {
            assert(carry_bits == bits * q);
            assert(carry_bits == 8 * (bytes * q)) by {
                vstd::arithmetic::mul::lemma_mul_is_associative(8, bytes as int, q);
            }
            assert(carry_bits as int / 8 == bytes * q);
            assert(aligned_addr + carry_bits as int / 8 <= self.addr + self.bit / 8);
        }
        let addr = aligned_addr + carry_bits / 8;
        proof {
            vstd::arithmetic::div_mod::lemma_mod_multiples_basic(qa + q, bytes as int);
            vstd::arithmetic::mul::lemma_mul_is_distributive_add(bytes as int, qa, q);
            vstd::arithmetic::mul::lemma_mul_is_commutative(bytes as int, qa + q);
            vstd::arithmetic::mul::lemma_mul_is_commutative(bytes as int, qa);
        }
        BitAddress { addr, bit }
    }

    /// The start of the grain that holds this bit address.
    pub fn align_down_to_grain(&self, granularity: Granularity) -> (r: Address)
        requires
            granularity.wf(),
            self.normalized_spec(granularity),
        ensures
            r == align_down_spec(self.addr as int, granularity.bytes_spec() as int),
            r == self.addr,
    {
        raw_align_down(self.addr, granularity.bytes())
    }

    /// The start of the first grain at or after this bit address.
    pub fn align_up_to_grain(&self, granularity: Granularity) -> (r: Address)
        requires
            granularity.wf(),
            self.normalized_spec(granularity),
            self.bit > 0 ==> self.addr + granularity.bytes_spec() <= u64::MAX,
        ensures
            self.bit > 0 ==> r == align_up_spec(self.addr + 1, granularity.bytes_spec() as int),
            self.bit == 0 ==> r == align_up_spec(self.addr as int, granularity.bytes_spec() as int),
            self.bit > 0 ==> r == self.addr + granularity.bytes_spec(),
            self.bit == 0 ==> r == self.addr,
    {
        let bytes = granularity.bytes();
        proof {
            lemma_align_facts(self.addr as int, bytes as int);
            lemma_align_facts(self.addr + 1, bytes as int);
            if bytes > 1 {
                vstd::arithmetic::div_mod::lemma_mod_adds(self.addr as int, 1, bytes as int);
                vstd::arithmetic::div_mod::lemma_small_mod(1, bytes as nat);
            } else {
                vstd::arithmetic::div_mod::lemma_mod_bound(self.addr + 1, 1);
            }
        }
        if self.bit > 0 {
            raw_align_up(self.addr + 1, bytes)
        } else {
            raw_align_up(self.addr, bytes)
        }
    }
}

/// Two distinct multiples of `b` are at least `b` apart.
pub proof fn lemma_aligned_gap(x: int, y: int, b: int)
    requires
        0 <= x < y,
        b > 0,
        x % b == 0,
        y % b == 0,
    ensures
        x + b <= y,
{
    lemma_fundamental_div_mod(x, b);
    lemma_fundamental_div_mod(y, b);
    lemma_div_is_ordered(x, y, b);
    if y / b == x / b {
    } else {
        vstd::arithmetic::mul::lemma_mul_is_distributive_add(b, x / b, 1);
        vstd::arithmetic::mul::lemma_mul_inequality(x / b + 1, y / b, b);
        vstd::arithmetic::mul::lemma_mul_is_commutative(b, x / b + 1);
        vstd::arithmetic::mul::lemma_mul_is_commutative(b, y / b);
    }
}

/// Attach a bit offset to an address.
pub trait AddressToBitAddress {
    fn with_bit_offset(&self, offset: BitOffset) -> (r: BitAddress);
}

impl AddressToBitAddress for Address {
    fn with_bit_offset(&self, offset: BitOffset) -> (r: BitAddress)
        ensures
            r.addr == *self,
            r.bit == offset,
    {
        BitAddress { addr: *self, bit: offset }
    }
}

/// A range to visit: whole grains `[start, end)`, or bits `[bit_start, bit_end)` of one grain.
#[derive(Debug, Clone, Copy, PartialEq, Eq, Structural)]
pub enum VisitRange {
    WholeGrain { start: Address, end: Address },
    SubGrain { addr: Address, bit_start: BitOffset, bit_end: BitOffset },
}

/// The decomposition of the bit range from `start` to `end`, from low to high
/// addresses: the bits of a partial first grain, then whole grains, then the
/// bits of a partial last grain.
pub open spec fn grain_pieces(g: Granularity, start: BitAddress, end: BitAddress) -> Seq<VisitRange> {
    if start.addr == end.addr {
        if start.bit == end.bit {
            seq![]
        } else {
            seq![VisitRange::SubGrain { addr: start.addr, bit_start: start.bit, bit_end: end.bit }]
        }
    } else {
        let start_whole: int = if start.bit > 0 { start.addr + g.bytes_spec() } else { start.addr as int };
        let first: Seq<VisitRange> = if start.bit != 0 {
            seq![VisitRange::SubGrain { addr: start.addr, bit_start: start.bit, bit_end: g.bits_spec() as u64 }]
        } else {
            seq![]
        };
        let whole: Seq<VisitRange> = if start_whole < end.addr {
            seq![VisitRange::WholeGrain { start: start_whole as u64, end: end.addr }]
        } else {
            seq![]
        };
        let last: Seq<VisitRange> = if end.bit != 0 {
            seq![VisitRange::SubGrain { addr: end.addr, bit_start: 0, bit_end: end.bit }]
        } else {
            seq![]
        };
        first + whole + last
    }
}

/// The range `r` covers the bit at absolute position `p`.
pub open spec fn visit_range_covers(r: VisitRange, p: int) -> bool {
    match r {
        VisitRange::WholeGrain { start, end } => start * 8 <= p < end * 8,
        VisitRange::SubGrain { addr, bit_start, bit_end } => addr * 8 + bit_start <= p < addr * 8 + bit_end,
    }
}

/// Some range of `rs` covers the bit at absolute position `p`.
pub open spec fn visit_ranges_cover(rs: Seq<VisitRange>, p: int) -> bool {
    exists|i: int| 0 <= i < rs.len() && visit_range_covers(#[trigger] rs[i], p)
}

/// The requirements on the ends of a range to break.
pub open spec fn break_range_requires(g: Granularity, start: BitAddress, end: BitAddress) -> bool {
    &&& g.wf()
    &&& start.normalized_spec(g)
    &&& end.normalized_spec(g)
    &&& bit_position(start) <= bit_position(end)
    &&& start.bit > 0 ==> start.addr + g.bytes_spec() <= u64::MAX
}

/// Break the bit range from `start` to `end` into whole grains and sub-grain ranges.
pub fn break_range(granularity: Granularity, start: BitAddress, end: BitAddress) -> (r: Vec<VisitRange>)
    requires
        break_range_requires(granularity, start, end),
    ensures
        r@ == grain_pieces(granularity, start, end),
{
    break_range_callback(granularity, start, end, true)
}

/// Break the bit range from `start` to `end` into whole grains and sub-grain
/// ranges, in the order they are visited: from low to high addresses if
/// `forwards`, else from high to low.
pub fn break_range_callback(granularity: Granularity, start: BitAddress, end: BitAddress, forwards: bool) -> (r: Vec<VisitRange>)
    requires
        break_range_requires(granularity, start, end),
    ensures
        forwards ==> r@ == grain_pieces(granularity, start, end),
        !forwards ==> r@ == grain_pieces(granularity, start, end).reverse(),
{
    let mut v: Vec<VisitRange> = Vec::new();
    if start.addr == end.addr {
        if start.bit == end.bit {
            return v;
        } else {
            v.push(VisitRange::SubGrain { addr: start.addr, bit_start: start.bit, bit_end: end.bit });
            assert(v@ =~= grain_pieces(granularity, start, end).reverse());
            return v;
        }
    }
    let start_aligned = start.is_grain_aligned(granularity);
    let end_aligned = end.is_grain_aligned(granularity);
    let start_whole = start.align_up_to_grain(granularity);
    let end_whole = end.align_down_to_grain(granularity);
    let bits = granularity.bits();
    let ghost pieces = grain_pieces(granularity, start, end);
    if forwards {
        if !start_aligned {
            v.push(VisitRange::SubGrain { addr: start.addr, bit_start: start.bit, bit_end: bits });
        }
        if start_whole < end_whole {
            v.push(VisitRange::WholeGrain { start: start_whole, end: end_whole });
        }
        if !end_aligned {
            v.push(VisitRange::SubGrain { addr: end.addr, bit_start: 0, bit_end: end.bit });
        }
        assert(v@ =~= pieces);
    } else {
        if !end_aligned {
            v.push(VisitRange::SubGrain { addr: end.addr, bit_start: 0, bit_end: end.bit });
        }
        if start_whole < end_whole {
            v.push(VisitRange::WholeGrain { start: start_whole, end: end_whole });
        }
        if !start_aligned {
            v.push(VisitRange::SubGrain { addr: start.addr, bit_start: start.bit, bit_end: bits });
        }
        assert(v@ =~= pieces.reverse());
    }
    v
}

/// The pieces of a range cover exactly the bits from `start` (inclusive) to `end` (exclusive).
pub proof fn lemma_grain_pieces_cover(g: Granularity, start: BitAddress, end: BitAddress)
    requires
        break_range_requires(g, start, end),
    ensures
        forall|p: int| #![trigger visit_ranges_cover(grain_pieces(g, start, end), p)]
            visit_ranges_cover(grain_pieces(g, start, end), p)
            <==> bit_position(start) <= p < bit_position(end),
{
    let rs = grain_pieces(g, start, end);
    vstd::bits::lemma_u64_pow2_no_overflow(g.log_bytes_spec() + 3);
    lemma_pow2_adds(g.log_bytes_spec(), 3);
    lemma2_to64();
    lemma_pow2_pos(g.log_bytes_spec());
    assert(g.bits_spec() == 8 * g.bytes_spec());
    if start.addr != end.addr {
        // The end grain starts at least one grain after the start grain.
        if end.addr < start.addr {
            lemma_aligned_gap(end.addr as int, start.addr as int, g.bytes_spec() as int);
        } else {
            lemma_aligned_gap(start.addr as int, end.addr as int, g.bytes_spec() as int);
        }
        assert(start.addr < end.addr);
    }
    assert forall|p: int| visit_ranges_cover(rs, p) <==> bit_position(start) <= p < bit_position(end) by {
        if bit_position(start) <= p < bit_position(end) {
            if start.addr == end.addr {
                assert(visit_range_covers(rs[0], p));
            } else {
                let start_whole: int = if start.bit > 0 { start.addr + g.bytes_spec() } else { start.addr as int };
                let nf: int = if start.bit != 0 { 1 } else { 0 };
                let nw: int = if start_whole < end.addr { 1 } else { 0 };
                if p < start_whole * 8 {
                    assert(rs[0] == VisitRange::SubGrain { addr: start.addr, bit_start: start.bit, bit_end: g.bits_spec() as u64 });
                    assert(visit_range_covers(rs[0], p));
                } else if p < end.addr * 8 {
                    assert(visit_range_covers(rs[nf], p));
                } else {
                    assert(visit_range_covers(rs[nf + nw], p));
                }
            }
        }
    }
}

/// The first bit position that `r` covers.
pub open spec fn visit_range_lo(r: VisitRange) -> int {
    match r {
        VisitRange::WholeGrain { start, end } => start * 8,
        VisitRange::SubGrain { addr, bit_start, bit_end } => addr * 8 + bit_start,
    }
}

/// The bit position just past those that `r` covers.
pub open spec fn visit_range_hi(r: VisitRange) -> int {
    match r {
        VisitRange::WholeGrain { start, end } => end * 8,
        VisitRange::SubGrain { addr, bit_start, bit_end } => addr * 8 + bit_end,
    }
}

/// `r` is a non-empty piece for grains of `g`: whole grains from one grain
/// start to a later one, or some bits inside one grain.
pub open spec fn visit_range_ok(g: Granularity, r: VisitRange) -> bool {
    match r {
        VisitRange::WholeGrain { start, end } => {
            &&& start < end
            &&& start as int % g.bytes_spec() as int == 0
            &&& end as int % g.bytes_spec() as int == 0
        },
        VisitRange::SubGrain { addr, bit_start, bit_end } => {
            &&& bit_start < bit_end <= g.bits_spec()
            &&& addr as int % g.bytes_spec() as int == 0
        },
    }
}

/// The pieces of a range: none exactly when the range is empty, else one to
/// three, each non-empty and grain-aligned, in ascending order and apart.
pub proof fn lemma_grain_pieces_well_formed(g: Granularity, start: BitAddress, end: BitAddress)
    requires
        break_range_requires(g, start, end),
    ensures
        grain_pieces(g, start, end).len() <= 3,
        grain_pieces(g, start, end).len() == 0 <==> start == end,
        forall|i: int| 0 <= i < grain_pieces(g, start, end).len()
            ==> visit_range_ok(g, #[trigger] grain_pieces(g, start, end)[i]),
        forall|i: int, j: int| 0 <= i < j < grain_pieces(g, start, end).len()
            ==> visit_range_hi(#[trigger] grain_pieces(g, start, end)[i])
                <= visit_range_lo(#[trigger] grain_pieces(g, start, end)[j]),
{
    let rs = grain_pieces(g, start, end);
    vstd::bits::lemma_u64_pow2_no_overflow(g.log_bytes_spec() + 3);
    lemma_pow2_adds(g.log_bytes_spec(), 3);
    lemma2_to64();
    lemma_pow2_pos(g.log_bytes_spec());
    assert(g.bits_spec() == 8 * g.bytes_spec());
    let b = g.bytes_spec() as int;
    if start.addr != end.addr {
        if end.addr < start.addr {
            lemma_aligned_gap(end.addr as int, start.addr as int, b);
        } else {
            lemma_aligned_gap(start.addr as int, end.addr as int, b);
        }
        assert(start.addr + b <= end.addr);
        if start.bit > 0 {
            vstd::arithmetic::div_mod::lemma_mod_adds(start.addr as int, b, b);
            vstd::arithmetic::div_mod::lemma_mod_self_0(b);
        }
        assert forall|i: int| 0 <= i < rs.len() implies visit_range_ok(g, #[trigger] rs[i]) by {}
        assert forall|i: int, j: int| 0 <= i < j < rs.len()
            implies visit_range_hi(#[trigger] rs[i]) <= visit_range_lo(#[trigger] rs[j]) by {}
    }
}

/// A mask with the bits `[bit_start, bit_end)` of a word set.
pub fn bit_mask(granularity: Granularity, bit_start: u64, bit_end: u64) -> (r: u64)
    requires
        granularity.wf(),
        granularity.bits_spec() <= 64,
        bit_start < bit_end,
        bit_end <= granularity.bits_spec(),
    ensures
        forall|i: u64| i < 64 ==> (((r >> i) & 1 == 1) <==> (bit_start <= i < bit_end)),
{
    proof {
        lemma2_to64();
        lemma_pow2_pos(granularity.log_bytes_spec() + 3);
    }
    if bit_end == 64 {
        let r = !0u64 << bit_start;
        assert forall|i: u64| i < 64 implies (((r >> i) & 1 == 1) <==> (bit_start <= i < bit_end)) by {
            lemma_mask_from(bit_start, bit_end, i);
        }
        r
    } else {
        let r = (!0u64 << bit_start) & !(!0u64 << bit_end);
        assert forall|i: u64| i < 64 implies (((r >> i) & 1 == 1) <==> (bit_start <= i < bit_end)) by {
            lemma_mask_between(bit_start, bit_end, i);
        }
        r
    }
}

proof fn lemma_mask_from(s: u64, e: u64, i: u64)
    by (bit_vector)
    requires
        s < e,
        e <= 64,
        i < 64,
        e == 64,
    ensures
        ((((!0u64) << s) >> i) & 1 == 1) <==> (s <= i < e),
{
}

proof fn lemma_mask_between(s: u64, e: u64, i: u64)
    by (bit_vector)
    requires
        s < e,
        e < 64,
        i < 64,
    ensures
        ((((((!0u64) << s) & !((!0u64) << e)) >> i) & 1 == 1) <==> (s <= i < e)),
{
}

} // verus!
