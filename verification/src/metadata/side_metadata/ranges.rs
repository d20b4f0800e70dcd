//! Data types for visiting metadata ranges at different granularities.
use vstd::prelude::*;
use crate::address::Address;

verus! {

/// The type for bit offset in a byte.
pub type BitOffset = u8;

/// A range of bytes or bits within a byte. It is the unit of visiting a
/// contiguous bit range of a side metadata. A range is never empty.
#[derive(Debug, Clone, Copy, PartialEq, Eq, Structural)]
pub enum BitByteRange {
    /// A range of whole bytes `[start, end)`.
    Bytes { start: Address, end: Address },
    /// The bits `[bit_start, bit_end)` of the byte at `addr` (bit 0 is the lowest).
    BitsInByte { addr: Address, bit_start: BitOffset, bit_end: BitOffset },
}

/// The position `(addr, bit)` comes before `(addr2, bit2)`.
pub open spec fn bit_pos_lt(addr: int, bit: int, addr2: int, bit2: int) -> bool {
    addr < addr2 || (addr == addr2 && bit < bit2)
}

/// The bit `(x, b)` is in the bit range from `(sa, sb)` (inclusive) to `(ea, eb)` (exclusive).
pub open spec fn in_bit_interval(x: int, b: int, sa: int, sb: int, ea: int, eb: int) -> bool {
    0 <= b < 8 && !bit_pos_lt(x, b, sa, sb) && bit_pos_lt(x, b, ea, eb)
}

/// The range `r` covers bit `b` of the byte at `x`.
pub open spec fn range_covers(r: BitByteRange, x: int, b: int) -> bool {
    match r {
        BitByteRange::Bytes { start, end } => start <= x < end && 0 <= b < 8,
        BitByteRange::BitsInByte { addr, bit_start, bit_end } => x == addr && bit_start <= b < bit_end,
    }
}

/// Some range of `rs` covers bit `b` of the byte at `x`.
pub open spec fn ranges_cover(rs: Seq<BitByteRange>, x: int, b: int) -> bool {
    exists|i: int| 0 <= i < rs.len() && range_covers(#[trigger] rs[i], x, b)
}

/// The decomposition of a bit range, from low to high addresses: the bits of a
/// partial first byte, then whole bytes, then the bits of a partial last byte.
pub open spec fn bit_range_pieces(sa: Address, sb: BitOffset, ea: Address, eb: BitOffset) -> Seq<BitByteRange> {
    if sa == ea && sb == eb {
        seq![]
    } else if sb == 0 && eb == 0 {
        seq![BitByteRange::Bytes { start: sa, end: ea }]
    } else if sa == ea {
        seq![BitByteRange::BitsInByte { addr: sa, bit_start: sb, bit_end: eb }]
    } else if sa + 1 == ea && eb == 0 {
        seq![BitByteRange::BitsInByte { addr: sa, bit_start: sb, bit_end: 8 }]
    } else {
        let mid_start: Address = if sb == 0 { sa } else { (sa + 1) as Address };
        let first: Seq<BitByteRange> = if sb != 0 {
            seq![BitByteRange::BitsInByte { addr: sa, bit_start: sb, bit_end: 8 }]
        } else {
            seq![]
        };
        let middle: Seq<BitByteRange> = if mid_start < ea {
            seq![BitByteRange::Bytes { start: mid_start, end: ea }]
        } else {
            seq![]
        };
        let last: Seq<BitByteRange> = if eb != 0 {
            seq![BitByteRange::BitsInByte { addr: ea, bit_start: 0, bit_end: eb }]
        } else {
            seq![]
        };
        first + middle + last
    }
}

/// Break a bit range into sub-ranges of whole bytes and in-byte bits.
///
/// The bit range starts at bit `start_bit` of the byte at `start_addr` and ends
/// at (but does not include) bit `end_bit` of the byte at `end_addr`. The pieces
/// come in the order they are visited: from low to high addresses if
/// `forwards`, else from high to low.
pub fn break_bit_range(
    start_addr: Address,
    start_bit: BitOffset,
    end_addr: Address,
    end_bit: BitOffset,
    forwards: bool,
) -> (r: Vec<BitByteRange>)
    requires
        start_bit < 8,
        end_bit < 8,
        !bit_pos_lt(end_addr as int, end_bit as int, start_addr as int, start_bit as int),
    ensures
        forwards ==> r@ == bit_range_pieces(start_addr, start_bit, end_addr, end_bit),
        !forwards ==> r@ == bit_range_pieces(start_addr, start_bit, end_addr, end_bit).reverse(),
{
    let mut v: Vec<BitByteRange> = Vec::new();
    if start_addr == end_addr && start_bit == end_bit {
        return v;
    }
    if start_bit == 0 && end_bit == 0 {
        v.push(BitByteRange::Bytes { start: start_addr, end: end_addr });
        assert(v@ =~= bit_range_pieces(start_addr, start_bit, end_addr, end_bit).reverse());
        return v;
    }
    if start_addr == end_addr {
        v.push(BitByteRange::BitsInByte { addr: start_addr, bit_start: start_bit, bit_end: end_bit });
        assert(v@ =~= bit_range_pieces(start_addr, start_bit, end_addr, end_bit).reverse());
        return v;
    }
    if start_addr + 1 == end_addr && end_bit == 0 {
        v.push(BitByteRange::BitsInByte { addr: start_addr, bit_start: start_bit, bit_end: 8 });
        assert(v@ =~= bit_range_pieces(start_addr, start_bit, end_addr, end_bit).reverse());
        return v;
    }
    let start_aligned = start_bit == 0;
    let end_aligned = end_bit == 0;
    let mid_start = if start_aligned { start_addr } else { start_addr + 1 };
    let ghost pieces = bit_range_pieces(start_addr, start_bit, end_addr, end_bit);
    if forwards {
        if !start_aligned {
            v.push(BitByteRange::BitsInByte { addr: start_addr, bit_start: start_bit, bit_end: 8 });
        }
        if mid_start < end_addr {
            v.push(BitByteRange::Bytes { start: mid_start, end: end_addr });
        }
        if !end_aligned {
            v.push(BitByteRange::BitsInByte { addr: end_addr, bit_start: 0, bit_end: end_bit });
        }
        assert(v@ =~= pieces);
    } else {
        if !end_aligned {
            v.push(BitByteRange::BitsInByte { addr: end_addr, bit_start: 0, bit_end: end_bit });
        }
        if mid_start < end_addr {
            v.push(BitByteRange::Bytes { start: mid_start, end: end_addr });
        }
        if !start_aligned {
            v.push(BitByteRange::BitsInByte { addr: start_addr, bit_start: start_bit, bit_end: 8 });
        }
        assert(v@ =~= pieces.reverse());
    }
    v
}

/// The pieces of a bit range cover exactly the bits of that range, each piece
/// is non-empty, and they come in increasing address order without overlap.
pub proof fn lemma_bit_range_pieces_cover(sa: Address, sb: BitOffset, ea: Address, eb: BitOffset)
    requires
        sb < 8,
        eb < 8,
        !bit_pos_lt(ea as int, eb as int, sa as int, sb as int),
    ensures
        forall|x: int, b: int| #![trigger ranges_cover(bit_range_pieces(sa, sb, ea, eb), x, b)]
            ranges_cover(bit_range_pieces(sa, sb, ea, eb), x, b)
            <==> in_bit_interval(x, b, sa as int, sb as int, ea as int, eb as int),
        forall|i: int| 0 <= i < bit_range_pieces(sa, sb, ea, eb).len() ==> match #[trigger] bit_range_pieces(sa, sb, ea, eb)[i] {
            BitByteRange::Bytes { start, end } => start < end,
            BitByteRange::BitsInByte { addr, bit_start, bit_end } => bit_start < bit_end <= 8,
        },
        bit_range_pieces(sa, sb, ea, eb).len() <= 3,
{
    let rs = bit_range_pieces(sa, sb, ea, eb);
    assert forall|x: int, b: int| ranges_cover(rs, x, b) <==> in_bit_interval(x, b, sa as int, sb as int, ea as int, eb as int) by {
        if in_bit_interval(x, b, sa as int, sb as int, ea as int, eb as int) {
            if sa == ea && sb == eb {
            } else if sb == 0 && eb == 0 {
                assert(range_covers(rs[0], x, b));
            } else if sa == ea {
                assert(range_covers(rs[0], x, b));
            } else if sa + 1 == ea && eb == 0 {
                assert(range_covers(rs[0], x, b));
            } else {
                let mid_start: int = if sb == 0 { sa as int } else { sa + 1 };
                let nf: int = if sb != 0 { 1 } else { 0 };
                let nm: int = if mid_start < ea { 1 } else { 0 };
                if x == sa && sb != 0 {
                    assert(range_covers(rs[0], x, b));
                } else if x < ea {
                    assert(range_covers(rs[nf], x, b));
                } else {
                    assert(range_covers(rs[nf + nm], x, b));
                }
            }
        }
    }
}

} // verus!
