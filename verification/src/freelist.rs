//! The encoding of a free list of units in 32-bit words.
//!
//! Each unit has two words. The low word holds the free bit (bit 31), the
//! "uncoalescable" bit (bit 30) and the previous unit in the free list (bits
//! 0-29); the high word holds the multi-unit bit (bit 31) and the next unit in
//! the free list (bits 0-29). A block of more than one unit keeps its size in
//! the high word of its second unit and of its last unit, with the multi-unit
//! bit set, so that the block to its left and to its right can be found.
use vstd::prelude::*;

verus! {

/// Returned by an allocation that failed.
pub const FAILURE: i32 = -1;
/// The largest number of list heads.
pub const MAX_HEADS: i32 = 128;
/// The largest number of units.
pub const MAX_UNITS: i32 = 1073741694;
/// The mask of a link (next or previous unit) in a word.
pub const NEXT_MASK: i32 = 0x3fff_ffff;
/// The mask of a link to the previous unit in a word.
pub const PREV_MASK: i32 = 0x3fff_ffff;
/// The mask of a block size in a word.
pub const SIZE_MASK: i32 = 0x3fff_ffff;
/// The free bit of a low word.
pub const FREE_MASK: i32 = i32::MIN;
/// The multi-unit bit of a high word.
pub const MULTI_MASK: i32 = i32::MIN;
/// The "uncoalescable" bit of a low word.
pub const COALESC_MASK: i32 = 0x4000_0000;

/// The link (or size) field of a word.
pub open spec fn field(w: i32) -> int {
    (w & 0x3fff_ffff) as int
}

/// The unit a link field names: a unit, or the head `-1`.
pub open spec fn link(w: i32) -> int {
    if field(w) <= MAX_UNITS {
        field(w)
    } else {
        -1
    }
}

/// The word `w` with its link field set to `v`.
pub open spec fn with_field(w: i32, v: i32) -> i32 {
    (w & !0x3fff_ffff_i32) | (v & 0x3fff_ffff_i32)
}

/// Setting the field of a word keeps its two top bits, and a unit or the head
/// reads back from the field.
pub proof fn lemma_with_field(w: i32, v: i32)
    requires
        -(MAX_HEADS as int) <= v <= MAX_UNITS,
    ensures
        (with_field(w, v) < 0) == (w < 0),
        with_field(w, v) & 0x4000_0000 == w & 0x4000_0000,
        v >= 0 ==> field(with_field(w, v)) == v,
        link(with_field(w, v)) == (if v >= 0 { v as int } else { -1 }),
{
    let r = with_field(w, v);
    assert((r < 0) == (w < 0)) by (bit_vector)
        requires r == (w & !0x3fff_ffff_i32) | (v & 0x3fff_ffff_i32);
    assert(r & 0x4000_0000 == w & 0x4000_0000) by (bit_vector)
        requires r == (w & !0x3fff_ffff_i32) | (v & 0x3fff_ffff_i32);
    assert(r & 0x3fff_ffff == v & 0x3fff_ffff) by (bit_vector)
        requires r == (w & !0x3fff_ffff_i32) | (v & 0x3fff_ffff_i32);
    assert(v >= 0 ==> v & 0x3fff_ffff == v) by (bit_vector)
        requires v <= 1073741694i32;
    assert(v < 0 ==> v & 0x3fff_ffff >= 1073741696) by (bit_vector)
        requires v >= -128i32;
}

/// A field is a 30-bit number.
pub proof fn lemma_field_range(w: i32)
    ensures
        0 <= field(w) <= 0x3fff_ffff,
{
    assert(0 <= w & 0x3fff_ffff <= 0x3fff_ffff) by (bit_vector);
}

/// Setting or clearing the top bit of a word keeps its other bits.
pub proof fn lemma_top_bit(w: i32)
    ensures
        (w | i32::MIN) < 0,
        field(w | i32::MIN) == field(w),
        (w | i32::MIN) & 0x4000_0000 == w & 0x4000_0000,
        (w & !i32::MIN) >= 0,
        field(w & !i32::MIN) == field(w),
        (w & !i32::MIN) & 0x4000_0000 == w & 0x4000_0000,
        ((w & i32::MIN) == i32::MIN) == (w < 0),
{
    assert((w | i32::MIN) < 0) by (bit_vector);
    assert((w | i32::MIN) & 0x3fff_ffff == w & 0x3fff_ffff) by (bit_vector);
    assert((w | i32::MIN) & 0x4000_0000 == w & 0x4000_0000) by (bit_vector);
    assert((w & !i32::MIN) >= 0) by (bit_vector);
    assert((w & !i32::MIN) & 0x3fff_ffff == w & 0x3fff_ffff) by (bit_vector);
    assert((w & !i32::MIN) & 0x4000_0000 == w & 0x4000_0000) by (bit_vector);
    assert(((w & i32::MIN) == i32::MIN) == (w < 0)) by (bit_vector);
}

/// A size word: the top bit and the size.
pub proof fn lemma_size_word(s: i32)
    requires
        0 <= s <= 0x3fff_ffff,
    ensures
        (i32::MIN | s) < 0,
        field(i32::MIN | s) == s,
{
    assert((i32::MIN | s) < 0) by (bit_vector);
    assert((i32::MIN | s) & 0x3fff_ffff == s) by (bit_vector)
        requires 0 <= s <= 0x3fff_ffff;
}

/// A size word and a sentinel word leave bit 30 clear.
pub proof fn lemma_bit30_clear(s: i32, u: i32)
    requires
        0 <= s <= 0x3fff_ffff,
    ensures
        (i32::MIN | s) & 0x4000_0000 == 0,
        (0x3fff_ffff & u) & 0x4000_0000 == 0,
{
    assert((i32::MIN | s) & 0x4000_0000 == 0) by (bit_vector)
        requires 0 <= s <= 0x3fff_ffff;
    assert((0x3fff_ffff & u) & 0x4000_0000 == 0) by (bit_vector);
}

/// A sentinel word of a unit: the unit's own link.
pub proof fn lemma_sentinel_word(u: i32)
    requires
        -(MAX_HEADS as int) <= u <= MAX_UNITS,
    ensures
        (0x3fff_ffff & u) >= 0,
        link(0x3fff_ffff & u) == (if u >= 0 { u as int } else { -1 }),
        u >= 0 ==> (0x3fff_ffff & u) == u,
{
    assert((0x3fff_ffff & u) >= 0) by (bit_vector);
    assert(0x3fff_ffff & u == u & 0x3fff_ffff) by (bit_vector);
    assert(u >= 0 ==> u & 0x3fff_ffff == u) by (bit_vector)
        requires u <= 1073741694i32;
    assert(u < 0 ==> u & 0x3fff_ffff >= 1073741696) by (bit_vector)
        requires u >= -128i32;
    assert((0x3fff_ffff & u) & 0x3fff_ffff == 0x3fff_ffff & u) by (bit_vector);
}

} // verus!
