//! A free list of units kept in a range of raw memory (here: its words), which
//! grows block by block up to a limit. Units are allocated first-fit from a
//! doubly linked list of free blocks; freed blocks coalesce with free
//! neighbours.
use vstd::prelude::*;
use crate::freelist::{
    FAILURE, MAX_HEADS, MAX_UNITS, NEXT_MASK, PREV_MASK, SIZE_MASK, FREE_MASK, MULTI_MASK,
    COALESC_MASK, field, link, with_field, lemma_with_field, lemma_top_bit, lemma_size_word,
    lemma_sentinel_word, lemma_field_range, lemma_bit30_clear,
};
use crate::os::MmapStrategy;
use crate::conversions::{pages_to_bytes, bytes_to_pages_up};

verus! {

/// The low word of unit `u` in the words `e` of a list with `h` heads.
pub open spec fn lo_of(e: Seq<i32>, h: int, u: int) -> i32 {
    e[2 * (u + h)]
}

/// The high word of unit `u`.
pub open spec fn hi_of(e: Seq<i32>, h: int, u: int) -> i32 {
    e[2 * (u + h) + 1]
}

/// The size of the block that starts at `u`.
pub open spec fn size_of(e: Seq<i32>, h: int, u: int) -> int {
    if hi_of(e, h, u) < 0 {
        field(hi_of(e, h, u + 1))
    } else {
        1
    }
}

/// The start of the block to the left of the block that starts at `u`.
pub open spec fn left_of(e: Seq<i32>, h: int, u: int) -> int {
    if hi_of(e, h, u - 1) < 0 {
        u - field(hi_of(e, h, u - 1))
    } else {
        u - 1
    }
}

/// `s` starts a block: the block map `blk` maps each unit to the start of its block.
pub open spec fn is_start(blk: Seq<int>, s: int) -> bool {
    0 <= s < blk.len() && blk[s] == s
}

/// The last unit of the block at `s` records the block's size.
pub open spec fn tail_ok(e: Seq<i32>, h: int, s: int) -> bool {
    let sz = size_of(e, h, s);
    if sz > 1 {
        hi_of(e, h, s + sz - 1) < 0 && field(hi_of(e, h, s + sz - 1)) == sz
    } else {
        sz == 1 && hi_of(e, h, s) >= 0
    }
}

/// The block map `blk` with the units `a..c` in the block at `s`.
pub open spec fn retiled(blk: Seq<int>, a: int, c: int, s: int) -> Seq<int> {
    Seq::new(blk.len(), |v: int| if a <= v < c { s } else { blk[v] })
}

/// The sequence `s` without (the first occurrence of) `x`.
pub open spec fn without(s: Seq<int>, x: int) -> Seq<int> {
    if s.contains(x) {
        s.remove(s.index_of(x))
    } else {
        s
    }
}

/// `k` is the position of the first block of the free list `fl` with at
/// least `size` units (the blocks `b` give the sizes).
pub open spec fn first_fit(fl: Seq<int>, b: Map<int, (int, bool)>, size: int, k: int) -> bool {
    &&& 0 <= k < fl.len()
    &&& b[fl[k]].0 >= size
    &&& forall|j: int| 0 <= j < k ==> #[trigger] b[fl[j]].0 < size
}

/// The free block that ends where the block at `u` starts (`-1`: none).
pub open spec fn free_left(b: Map<int, (int, bool)>, u: int) -> int {
    if exists|l: int| #[trigger] b.contains_key(l) && l + b[l].0 == u && b[l].1 {
        choose|l: int| #[trigger] b.contains_key(l) && l + b[l].0 == u && b[l].1
    } else {
        -1
    }
}

/// The free block right after the block at `u` (`-1`: none).
pub open spec fn free_right(b: Map<int, (int, bool)>, u: int) -> int {
    let r = u + b[u].0;
    if b.contains_key(r) && b[r].1 {
        r
    } else {
        -1
    }
}

/// The blocks `b` after allocating `size` units from the free block at `r`:
/// its first `size` units become a used block, and the rest (if any) a free
/// block.
pub open spec fn allocated_blocks(b: Map<int, (int, bool)>, r: int, size: int) -> Map<int, (int, bool)> {
    let sz = b[r].0;
    if sz > size {
        b.insert(r, (size, false)).insert(r + size, (sz - size, true))
    } else {
        b.insert(r, (size, false))
    }
}

/// The blocks `b` after freeing the block at `u`: it merges with the free
/// blocks right before and right after it into one free block.
pub open spec fn freed_blocks(b: Map<int, (int, bool)>, u: int) -> Map<int, (int, bool)> {
    let l = free_left(b, u);
    let rt = free_right(b, u);
    let start = if l >= 0 { l } else { u };
    let end = if rt >= 0 { rt + b[rt].0 } else { u + b[u].0 };
    Map::new(
        |x: int| b.contains_key(x) && !(start < x < end),
        |x: int| if x == start { (end - start, true) } else { b[x] },
    )
}

/// The number of pages for the words of `units` units and `heads` heads (and
/// a sentinel), two 4-byte words each.
pub open spec fn size_in_pages_spec(units: int, heads: int) -> int {
    ((units + heads + 1) * 8 + 4095) / 4096
}

/// The size of the blocks that growing from `old_max` to `new_max` units, in
/// `grain`s, makes: the grain, or all the new units if fewer.
pub open spec fn grow_grain(old_max: int, new_max: int, grain: int) -> int {
    if grain < new_max - old_max {
        grain
    } else {
        new_max - old_max
    }
}

/// The number of blocks that growing from `old_max` to `new_max` units makes.
pub open spec fn grow_count(old_max: int, new_max: int, grain: int) -> int {
    if new_max > old_max {
        (new_max - old_max) / grow_grain(old_max, new_max, grain)
    } else {
        0
    }
}

/// The first unit of the first block that growing from `old_max` to
/// `new_max` units makes.
pub open spec fn grow_first(old_max: int, new_max: int, grain: int) -> int {
    new_max - grow_count(old_max, new_max, grain) * grow_grain(old_max, new_max, grain)
}

/// The blocks that growing from `old_max` to `new_max` units makes, in order.
pub open spec fn grown_order(old_max: int, new_max: int, grain: int) -> Seq<int> {
    Seq::new(
        grow_count(old_max, new_max, grain) as nat,
        |i: int| grow_first(old_max, new_max, grain) + i * grow_grain(old_max, new_max, grain),
    )
}

/// The blocks `b` of `old_max` units grown to `new_max` units: new free
/// blocks of a grain each, and, if they leave it out, the unit `old_max` as a
/// used block.
pub open spec fn grown_blocks(b: Map<int, (int, bool)>, old_max: int, new_max: int, grain: int) -> Map<
    int,
    (int, bool),
> {
    let nb = grown_order(old_max, new_max, grain);
    Map::new(
        |s: int|
            b.contains_key(s) || nb.contains(s) || (old_max < grow_first(old_max, new_max, grain) && s
                == old_max),
        |s: int|
            if nb.contains(s) {
                (grow_grain(old_max, new_max, grain), true)
            } else if b.contains_key(s) {
                b[s]
            } else {
                (1, false)
            },
    )
}

/// The words `e` with the size of the block at `u` set to `size`.
pub open spec fn sized(e: Seq<i32>, h: int, u: int, size: i32) -> Seq<i32> {
    let w = hi_of(e, h, u);
    if size > 1 {
        e.update(2 * (u + h) + 1, w | i32::MIN).update(2 * (u + 1 + h) + 1, i32::MIN | size).update(
            2 * (u + size - 1 + h) + 1,
            i32::MIN | size,
        )
    } else {
        e.update(2 * (u + h) + 1, w & !i32::MIN)
    }
}

/// Setting the size of the block at `u` makes it a block of `size` units and
/// changes only high words of its units, the first keeping its link.
#[verifier::spinoff_prover]
proof fn lemma_sized(e: Seq<i32>, h: int, u: int, size: i32)
    requires
        -h <= u,
        1 <= size <= MAX_UNITS,
        2 * (u + size - 1 + h) + 1 < e.len(),
    ensures
        ({
            let e2 = sized(e, h, u, size);
            &&& e2.len() == e.len()
            &&& size_of(e2, h, u) == size
            &&& tail_ok(e2, h, u)
            &&& field(hi_of(e2, h, u)) == field(hi_of(e, h, u))
            &&& forall|w: int|
                -h <= w && 2 * (w + h) + 1 < e.len() && (w < u || w >= u + size) ==> hi_of(e2, h, w)
                    == hi_of(e, h, w)
            &&& forall|w: int| -h <= w && 2 * (w + h) + 1 < e.len() ==> lo_of(e2, h, w) == lo_of(e, h, w)
            &&& bits_clear(e) ==> bits_clear(e2)
        }),
{
    lemma_top_bit(hi_of(e, h, u));
    lemma_size_word(size);
    lemma_bit30_clear(size, 0);
}

/// The units `a..c` are cut into blocks that follow each other, as `blk` says.
#[verifier::opaque]
pub open spec fn blocks_in(e: Seq<i32>, h: int, blk: Seq<int>, a: int, c: int) -> bool {
    &&& c <= blk.len()
    &&& forall|v: int|
        a <= v < c ==> a <= #[trigger] blk[v] <= v && is_start(blk, blk[v]) && v < blk[v] + size_of(
            e,
            h,
            blk[v],
        )
    &&& forall|s: int, v: int|
        a <= s < c && #[trigger] is_start(blk, s) && s <= v < s + size_of(e, h, s) ==> #[trigger] blk[v]
            == s
    &&& forall|s: int|
        a <= s < c && #[trigger] is_start(blk, s) ==> s + size_of(e, h, s) <= c && tail_ok(e, h, s)
}

/// The units `0..n` are cut into blocks that follow each other, as `blk` says.
pub open spec fn blocks_ok(e: Seq<i32>, h: int, n: int, blk: Seq<int>) -> bool {
    blk.len() == n && blocks_in(e, h, blk, 0, n)
}

/// Blocks of `a..b` and of `b..c` make blocks of `a..c`.
#[verifier::spinoff_prover]
proof fn lemma_blocks_concat(e: Seq<i32>, h: int, blk: Seq<int>, a: int, b: int, c: int)
    requires
        a <= b <= c,
        blocks_in(e, h, blk, a, b),
        blocks_in(e, h, blk, b, c),
    ensures
        blocks_in(e, h, blk, a, c),
{
    reveal(blocks_in);
}

/// Blocks of `a..c` cut at the starts `b` and `d` make blocks of `a..b`, of
/// `b..d` and of `d..c`.
#[verifier::spinoff_prover]
proof fn lemma_blocks_cut(e: Seq<i32>, h: int, blk: Seq<int>, a: int, b: int, d: int, c: int)
    requires
        a <= b < d <= c,
        blocks_in(e, h, blk, a, c),
        b == c || is_start(blk, b),
        d == c || is_start(blk, d),
    ensures
        blocks_in(e, h, blk, a, b),
        blocks_in(e, h, blk, b, d),
        blocks_in(e, h, blk, d, c),
{
    reveal(blocks_in);
    assert forall|v: int| b <= v < c implies b <= #[trigger] blk[v] by {
        let s = blk[v];
        if s < b {
            assert(blk[b] == s);
        }
    }
    assert forall|v: int| d <= v < c implies d <= #[trigger] blk[v] by {
        let s = blk[v];
        if s < d {
            assert(blk[d] == s);
        }
    }
    assert forall|s: int| a <= s < b && #[trigger] is_start(blk, s) implies s + size_of(e, h, s) <= b by {
        if s + size_of(e, h, s) > b {
            assert(blk[b] == s);
        }
    }
    assert forall|s: int| b <= s < d && #[trigger] is_start(blk, s) implies s + size_of(e, h, s) <= d by {
        if s + size_of(e, h, s) > d {
            assert(blk[d] == s);
        }
    }
}

/// Blocks of `a..c` stay blocks when the high words of the units of `a..c`
/// keep their top bit, and change only at the starts of blocks, and the
/// block map stays the same on `a..c`.
#[verifier::spinoff_prover]
proof fn lemma_blocks_frame(
    e: Seq<i32>,
    e2: Seq<i32>,
    h: int,
    blk: Seq<int>,
    blk2: Seq<int>,
    a: int,
    c: int,
)
    requires
        blocks_in(e, h, blk, a, c),
        c <= blk2.len(),
        forall|v: int| a <= v < c ==> blk2[v] == blk[v],
        forall|w: int|
            a <= w < c ==> (hi_of(e2, h, w) < 0) == (hi_of(e, h, w) < 0) && (!is_start(blk, w)
                ==> hi_of(e2, h, w) == hi_of(e, h, w)),
    ensures
        blocks_in(e2, h, blk2, a, c),
        forall|s: int| a <= s < c && is_start(blk, s) ==> size_of(e2, h, s) == size_of(e, h, s),
{
    reveal(blocks_in);
    assert forall|s: int| a <= s < c && is_start(blk, s) implies size_of(e2, h, s) == size_of(e, h, s) && tail_ok(e2, h, s) by {
        let sz = size_of(e, h, s);
        assert(s + sz <= c && tail_ok(e, h, s));
        assert((hi_of(e2, h, s) < 0) == (hi_of(e, h, s) < 0));
        if hi_of(e, h, s) < 0 {
            assert(sz > 1);
            assert(blk[s + 1] == s);
            assert(!is_start(blk, s + 1));
            assert(hi_of(e2, h, s + 1) == hi_of(e, h, s + 1));
            assert(blk[s + sz - 1] == s);
            assert(!is_start(blk, s + sz - 1));
            assert(hi_of(e2, h, s + sz - 1) == hi_of(e, h, s + sz - 1));
        }
    }
    assert forall|s: int| a <= s < c && is_start(blk2, s) implies is_start(blk, s) by {}
}

/// A block at `a` of `c - a` units makes blocks of `a..c`.
#[verifier::spinoff_prover]
proof fn lemma_one_block(e: Seq<i32>, h: int, blk: Seq<int>, a: int, c: int)
    requires
        0 <= a < c <= blk.len(),
        size_of(e, h, a) == c - a,
        tail_ok(e, h, a),
        forall|v: int| a <= v < c ==> blk[v] == a,
    ensures
        blocks_in(e, h, blk, a, c),
{
    reveal(blocks_in);
    assert(is_start(blk, a));
    assert forall|s: int| a <= s < c && is_start(blk, s) implies s == a by {
        assert(blk[s] == a);
    }
}

/// The unit after position `i` of the free list `fl` (the head `-1` after the last).
pub open spec fn nxt(fl: Seq<int>, i: int) -> int {
    if i + 1 < fl.len() {
        fl[i + 1]
    } else {
        -1
    }
}

/// The unit before position `i` of the free list `fl` (the head `-1` before the first).
pub open spec fn prv(fl: Seq<int>, i: int) -> int {
    if i > 0 {
        fl[i - 1]
    } else {
        -1
    }
}

/// The free list `fl` is linked from the head `-1` both ways, and holds the
/// free blocks, but for the units `x` and `y` that may be free and not in it.
#[verifier::opaque]
pub open spec fn list_ok_but(
    e: Seq<i32>,
    h: int,
    blk: Seq<int>,
    fl: Seq<int>,
    x: int,
    y: int,
) -> bool {
    &&& fl.no_duplicates()
    &&& forall|i: int| 0 <= i < fl.len() ==> is_start(blk, #[trigger] fl[i]) && lo_of(e, h, fl[i]) < 0
    &&& forall|s: int|
        #[trigger] is_start(blk, s) && lo_of(e, h, s) < 0 && s != x && s != y ==> fl.contains(s)
    &&& link(hi_of(e, h, -1)) == nxt(fl, -1)
    &&& link(lo_of(e, h, -1)) == prv(fl, fl.len() as int)
    &&& forall|i: int| 0 <= i < fl.len() ==> link(hi_of(e, h, #[trigger] fl[i])) == nxt(fl, i)
    &&& forall|i: int| 0 <= i < fl.len() ==> link(lo_of(e, h, #[trigger] fl[i])) == prv(fl, i)
}

/// The blocks, the free list and the sentinels of `n` units in the words `e`.
pub open spec fn structure_ok(e: Seq<i32>, h: int, n: int, blk: Seq<int>, fl: Seq<int>) -> bool {
    &&& e.len() >= 2 * (n + h + 1)
    &&& hi_of(e, h, -1) >= 0
    &&& lo_of(e, h, -1) >= 0
    &&& lo_of(e, h, n) >= 0
    &&& blocks_ok(e, h, n, blk)
    &&& list_ok_but(e, h, blk, fl, -1, -1)
}

/// The high words keep their top bit, and only those of `a` and `b` change.
pub open spec fn hi_frame(e: Seq<i32>, e2: Seq<i32>, h: int, a: int, b: int) -> bool {
    &&& e2.len() == e.len()
    &&& forall|w: int|
        -h <= w && 2 * (w + h) + 1 < e.len() ==> ((#[trigger] hi_of(e2, h, w) < 0) == (hi_of(
            e,
            h,
            w,
        ) < 0) && (w != a && w != b ==> hi_of(e2, h, w) == hi_of(e, h, w)))
}

/// The low words keep their top bit, but for those of `a` and `b`.
pub open spec fn lo_frame(e: Seq<i32>, e2: Seq<i32>, h: int, a: int, b: int) -> bool {
    forall|w: int|
        -h <= w && 2 * (w + h) + 1 < e.len() && w != a && w != b ==> (#[trigger] lo_of(e2, h, w) < 0)
            == (lo_of(e, h, w) < 0)
}

/// No word has bit 30 set.
pub open spec fn bits_clear(e: Seq<i32>) -> bool {
    forall|i: int| 0 <= i < e.len() ==> #[trigger] e[i] & 0x4000_0000 == 0
}

/// Putting the block `u` (whose last unit is `t`) at the front of the free
/// list `fl`, whose first block or head is `nx`, links the list `[u] + fl`.
#[verifier::spinoff_prover]
proof fn lemma_add_to_free_list(
    e0: Seq<i32>,
    e5: Seq<i32>,
    h: int,
    blk: Seq<int>,
    fl: Seq<int>,
    u: int,
    t: int,
    nx: int,
)
    requires
        e5.len() == e0.len(),
        0 <= u,
        u <= t,
        t != u ==> !is_start(blk, t),
        is_start(blk, u),
        !fl.contains(u),
        nx == nxt(fl, -1),
        list_ok_but(e0, h, blk, fl, u, u),
        link(hi_of(e5, h, u)) == nx,
        link(hi_of(e5, h, -1)) == u,
        forall|w: int|
            -h <= w && 2 * (w + h) + 1 < e0.len() && w != u && w != -1 ==> hi_of(e5, h, w)
                == hi_of(e0, h, w),
        lo_of(e5, h, u) < 0,
        link(lo_of(e5, h, u)) == -1,
        link(lo_of(e5, h, nx)) == u,
        (lo_of(e5, h, nx) < 0) == (lo_of(e0, h, nx) < 0),
        forall|w: int|
            -h <= w && 2 * (w + h) + 1 < e0.len() && w != u && w != t && w != nx ==> lo_of(e5, h, w)
                == lo_of(e0, h, w),
        forall|s: int| #[trigger] is_start(blk, s) ==> -h <= s && 2 * (s + h) + 1 < e0.len(),
        -h <= -1 && 2 * (-1 + h) + 1 < e0.len(),
    ensures
        list_ok_but(e5, h, blk, seq![u] + fl, -1, -1),
{
    reveal(list_ok_but);
    let fl2 = seq![u] + fl;
    assert forall|i: int, j: int| 0 <= i < fl2.len() && 0 <= j < fl2.len() && i != j implies fl2[i] != fl2[j] by {
        if i == 0 {
            assert(fl[j - 1] == fl2[j]);
        } else if j == 0 {
            assert(fl[i - 1] == fl2[i]);
        }
    }
    assert forall|i: int| 0 <= i < fl2.len() implies is_start(blk, #[trigger] fl2[i]) && lo_of(e5, h, fl2[i]) < 0 by {
        if i > 0 {
            assert(fl2[i] == fl[i - 1]);
            assert(fl[i - 1] != t);
        }
    }
    assert forall|s: int| #[trigger] is_start(blk, s) && lo_of(e5, h, s) < 0 implies fl2.contains(s) by {
        if s == u {
            assert(fl2[0] == u);
        } else {
            assert(s != t);
            assert(lo_of(e0, h, s) < 0);
            let i = choose|i: int| 0 <= i < fl.len() && fl[i] == s;
            assert(fl2[i + 1] == s);
        }
    }
    assert(link(lo_of(e5, h, -1)) == prv(fl2, fl2.len() as int)) by {
        if fl.len() > 0 {
            assert(nx == fl[0]);
            assert(fl[fl.len() - 1] != u);
            assert(lo_of(e5, h, -1) == lo_of(e0, h, -1));
        }
    }
    assert forall|i: int| 0 <= i < fl2.len() implies link(hi_of(e5, h, #[trigger] fl2[i])) == nxt(fl2, i) by {
        if i > 0 {
            assert(fl2[i] == fl[i - 1]);
            assert(fl[i - 1] != u);
        }
    }
    assert forall|i: int| 0 <= i < fl2.len() implies link(lo_of(e5, h, #[trigger] fl2[i])) == prv(fl2, i) by {
        if i > 1 {
            assert(fl2[i] == fl[i - 1]);
            assert(fl[i - 1] != u && fl[i - 1] != t && fl[i - 1] != nx);
        } else if i == 1 {
            assert(fl2[1] == fl[0] && fl[0] == nx);
        }
    }
}

/// Unlinking the block at position `k` of the free list `fl` (between `p` and
/// `nx`) links the list without it.
#[verifier::spinoff_prover]
proof fn lemma_remove_from_free_list(
    e0: Seq<i32>,
    e2: Seq<i32>,
    h: int,
    blk: Seq<int>,
    fl: Seq<int>,
    k: int,
    x: int,
)
    requires
        e2.len() == e0.len(),
        0 <= k < fl.len(),
        list_ok_but(e0, h, blk, fl, x, -1),
        link(hi_of(e2, h, prv(fl, k))) == nxt(fl, k),
        forall|w: int|
            -h <= w && 2 * (w + h) + 1 < e0.len() && w != prv(fl, k) ==> hi_of(e2, h, w) == hi_of(
                e0,
                h,
                w,
            ),
        link(lo_of(e2, h, nxt(fl, k))) == prv(fl, k),
        forall|w: int|
            -h <= w && 2 * (w + h) + 1 < e0.len() && w != nxt(fl, k) ==> lo_of(e2, h, w) == lo_of(
                e0,
                h,
                w,
            ),
        forall|w: int|
            -h <= w && 2 * (w + h) + 1 < e0.len() ==> (lo_of(e2, h, w) < 0) == (lo_of(e0, h, w) < 0),
        forall|s: int| #[trigger] is_start(blk, s) ==> -h <= s && 2 * (s + h) + 1 < e0.len(),
        -h <= -1 && 2 * (-1 + h) + 1 < e0.len(),
    ensures
        list_ok_but(e2, h, blk, fl.remove(k), fl[k], x),
{
    reveal(list_ok_but);
    let fl2 = fl.remove(k);
    let u = fl[k];
    let p = prv(fl, k);
    let nx = nxt(fl, k);
    fl.remove_ensures(k);
    assert forall|i: int, j: int| 0 <= i < fl2.len() && 0 <= j < fl2.len() && i != j implies fl2[i] != fl2[j] by {
        let i0 = if i < k { i } else { i + 1 };
        let j0 = if j < k { j } else { j + 1 };
        assert(fl2[i] == fl[i0] && fl2[j] == fl[j0]);
    }
    assert forall|i: int| 0 <= i < fl2.len() implies is_start(blk, #[trigger] fl2[i]) && lo_of(e2, h, fl2[i]) < 0 by {
        let i0 = if i < k { i } else { i + 1 };
        assert(fl2[i] == fl[i0]);
    }
    assert forall|s: int| #[trigger] is_start(blk, s) && lo_of(e2, h, s) < 0 && s != u && s != x implies fl2.contains(s) by {
        assert(lo_of(e0, h, s) < 0);
        assert(s != -1);
        let i = choose|i: int| 0 <= i < fl.len() && fl[i] == s;
        assert(i != k);
        if i < k {
            assert(fl2[i] == s);
        } else {
            assert(fl2[i - 1] == s);
        }
    }
    assert(link(hi_of(e2, h, -1)) == nxt(fl2, -1)) by {
        if k > 0 {
            assert(p == fl[k - 1]);
            assert(p != -1);
        }
    }
    assert(link(lo_of(e2, h, -1)) == prv(fl2, fl2.len() as int)) by {
        if k + 1 < fl.len() {
            assert(nx == fl[k + 1]);
            assert(fl2[fl2.len() - 1] == fl[fl.len() - 1]);
        }
    }
    assert forall|i: int| 0 <= i < fl2.len() implies link(hi_of(e2, h, #[trigger] fl2[i])) == nxt(fl2, i) by {
        if i < k - 1 {
            assert(fl2[i] == fl[i] && fl[i] != p);
            assert(fl2[i + 1] == fl[i + 1]);
        } else if i == k - 1 {
            assert(fl2[i] == p);
        } else {
            assert(fl2[i] == fl[i + 1] && fl[i + 1] != p);
            if i + 1 < fl2.len() {
                assert(fl2[i + 1] == fl[i + 2]);
            }
        }
    }
    assert forall|i: int| 0 <= i < fl2.len() implies link(lo_of(e2, h, #[trigger] fl2[i])) == prv(fl2, i) by {
        if i < k {
            assert(fl2[i] == fl[i] && fl[i] != nx);
            if i > 0 {
                assert(fl2[i - 1] == fl[i - 1]);
            }
        } else if i == k {
            assert(fl2[i] == nx);
            if i > 0 {
                assert(fl2[i - 1] == fl[i - 1]);
            }
        } else {
            assert(fl2[i] == fl[i + 1] && fl[i + 1] != nx);
            assert(fl2[i - 1] == fl[i]);
        }
    }
}

/// The free list stays linked when the low words stay, the links of its
/// blocks and of the head stay, and its blocks stay blocks.
#[verifier::spinoff_prover]
proof fn lemma_list_reshape(
    e: Seq<i32>,
    e2: Seq<i32>,
    h: int,
    blk: Seq<int>,
    blk2: Seq<int>,
    fl: Seq<int>,
    x: int,
    y: int,
    x2: int,
    y2: int,
)
    requires
        list_ok_but(e, h, blk, fl, x, y),
        forall|w: int|
            -h <= w && 2 * (w + h) + 1 < e.len() && (w == -1 || is_start(blk, w) || is_start(blk2, w))
                ==> #[trigger] lo_of(e2, h, w) == lo_of(e, h, w),
        -h <= -1 && 2 * (-1 + h) + 1 < e.len(),
        link(hi_of(e2, h, -1)) == link(hi_of(e, h, -1)),
        forall|i: int| 0 <= i < fl.len() ==> link(hi_of(e2, h, #[trigger] fl[i])) == link(hi_of(e, h, fl[i])),
        forall|i: int| 0 <= i < fl.len() ==> is_start(blk2, #[trigger] fl[i]),
        forall|s: int|
            #[trigger] is_start(blk2, s) && lo_of(e2, h, s) < 0 && s != x2 && s != y2 ==> (is_start(blk, s) && s != x
                && s != y),
        forall|s: int| #[trigger] is_start(blk2, s) ==> -h <= s && 2 * (s + h) + 1 < e.len(),
        forall|s: int| #[trigger] is_start(blk, s) ==> -h <= s && 2 * (s + h) + 1 < e.len(),
    ensures
        list_ok_but(e2, h, blk2, fl, x2, y2),
{
    reveal(list_ok_but);
    assert forall|i: int| 0 <= i < fl.len() implies is_start(blk2, #[trigger] fl[i]) && lo_of(e2, h, fl[i]) < 0 by {
        assert(is_start(blk, fl[i]));
    }
    assert forall|i: int| 0 <= i < fl.len() implies link(lo_of(e2, h, #[trigger] fl[i])) == prv(fl, i) by {
        assert(is_start(blk, fl[i]));
    }
    assert forall|s: int| #[trigger] is_start(blk2, s) && lo_of(e2, h, s) < 0 && s != x2 && s != y2 implies fl.contains(s) by {
        assert(lo_of(e2, h, s) == lo_of(e, h, s));
        assert(is_start(blk, s) && s != x && s != y);
    }
    assert(lo_of(e2, h, -1) == lo_of(e, h, -1));
}

/// Cutting the block `unit..end` at `u2` into two blocks keeps the units cut
/// into blocks.
#[verifier::spinoff_prover]
proof fn lemma_split_blocks(
    e0: Seq<i32>,
    e1: Seq<i32>,
    e2: Seq<i32>,
    h: int,
    n: int,
    blk: Seq<int>,
    blk2: Seq<int>,
    unit: int,
    u2: int,
    end: int,
)
    requires
        blocks_ok(e0, h, n, blk),
        is_start(blk, unit),
        end == unit + size_of(e0, h, unit),
        unit < u2 < end,
        e1.len() == e0.len() && e2.len() == e0.len(),
        2 * (n + h) + 1 < e0.len(),
        0 <= h,
        size_of(e1, h, unit) == u2 - unit && tail_ok(e1, h, unit),
        forall|w: int| -h <= w && 2 * (w + h) + 1 < e0.len() && (w < unit || w >= u2) ==> hi_of(e1, h, w) == hi_of(e0, h, w),
        size_of(e2, h, u2) == end - u2 && tail_ok(e2, h, u2),
        forall|w: int| -h <= w && 2 * (w + h) + 1 < e0.len() && (w < u2 || w >= end) ==> hi_of(e2, h, w) == hi_of(e1, h, w),
        blk2.len() == n,
        forall|v: int| 0 <= v < n ==> #[trigger] blk2[v] == if u2 <= v < end { u2 } else { blk[v] },
    ensures
        blocks_ok(e2, h, n, blk2),
        size_of(e2, h, unit) == u2 - unit,
        tail_ok(e2, h, unit),
{
    lemma_block_at(e0, h, blk, 0, n, unit);
    assert(size_of(e2, h, unit) == u2 - unit && tail_ok(e2, h, unit)) by {
        if hi_of(e1, h, unit) < 0 {
            assert(hi_of(e2, h, unit + 1) == hi_of(e1, h, unit + 1));
        }
        assert(hi_of(e2, h, u2 - 1) == hi_of(e1, h, u2 - 1));
    }
    lemma_blocks_cut(e0, h, blk, 0, unit, end, n);
    lemma_blocks_frame(e0, e2, h, blk, blk2, 0, unit);
    lemma_blocks_frame(e0, e2, h, blk, blk2, end, n);
    assert forall|v: int| unit <= v < u2 implies blk2[v] == unit by {
        assert(blk[v] == unit);
    }
    lemma_one_block(e2, h, blk2, unit, u2);
    lemma_one_block(e2, h, blk2, u2, end);
    lemma_blocks_concat(e2, h, blk2, 0, unit, u2);
    lemma_blocks_concat(e2, h, blk2, 0, u2, end);
    lemma_blocks_concat(e2, h, blk2, 0, end, n);
}

/// A block of the blocks of `a..c` lies in `a..c`, its units belong to it, its
/// last unit records its size, and the next block (if any) starts after it.
#[verifier::spinoff_prover]
proof fn lemma_block_at(e: Seq<i32>, h: int, blk: Seq<int>, a: int, c: int, s: int)
    requires
        blocks_in(e, h, blk, a, c),
        a <= s < c,
        is_start(blk, s),
    ensures
        1 <= size_of(e, h, s),
        s + size_of(e, h, s) <= c,
        tail_ok(e, h, s),
        forall|v: int| s <= v < s + size_of(e, h, s) ==> #[trigger] blk[v] == s,
        s + size_of(e, h, s) < c ==> is_start(blk, s + size_of(e, h, s)),
        s + size_of(e, h, s) < c ==> blk[s + size_of(e, h, s) - 1] == s,
        size_of(e, h, s) > 1 ==> !is_start(blk, s + 1) && !is_start(blk, s + size_of(e, h, s) - 1),
{
    reveal(blocks_in);
    let sz = size_of(e, h, s);
    assert(blk[s] == s);
    if s + sz < c {
        let v = s + sz;
        let s2 = blk[v];
        if s2 < v {
            assert(blk[v - 1] == s2);
            assert(blk[v - 1] == s);
        }
    }
    if sz > 1 {
        assert(blk[s + 1] == s);
        assert(blk[s + sz - 1] == s);
    }
}

/// The unit `v` of `a..c` belongs to a block of `a..c`.
#[verifier::spinoff_prover]
proof fn lemma_unit_in_block(e: Seq<i32>, h: int, blk: Seq<int>, a: int, c: int, v: int)
    requires
        blocks_in(e, h, blk, a, c),
        a <= v < c,
    ensures
        a <= blk[v] <= v,
        is_start(blk, blk[v]),
        v < blk[v] + size_of(e, h, blk[v]),
{
    reveal(blocks_in);
}

/// The blocks of the free list are free blocks, and the free list links them.
#[verifier::spinoff_prover]
proof fn lemma_list_facts(e: Seq<i32>, h: int, blk: Seq<int>, fl: Seq<int>, x: int, y: int)
    requires
        list_ok_but(e, h, blk, fl, x, y),
    ensures
        fl.no_duplicates(),
        forall|i: int| 0 <= i < fl.len() ==> is_start(blk, #[trigger] fl[i]) && lo_of(e, h, fl[i]) < 0,
        forall|s: int| #[trigger] is_start(blk, s) && lo_of(e, h, s) < 0 && s != x && s != y ==> fl.contains(s),
        link(hi_of(e, h, -1)) == nxt(fl, -1),
        link(lo_of(e, h, -1)) == prv(fl, fl.len() as int),
        forall|i: int| 0 <= i < fl.len() ==> link(hi_of(e, h, #[trigger] fl[i])) == nxt(fl, i),
        forall|i: int| 0 <= i < fl.len() ==> link(lo_of(e, h, #[trigger] fl[i])) == prv(fl, i),
{
    reveal(list_ok_but);
}

/// Marking the block `u` (last unit `t`), which is not in the free list,
/// used keeps the free list linked, and `u` need no longer be left out.
#[verifier::spinoff_prover]
proof fn lemma_list_mark_used(
    e: Seq<i32>,
    e2: Seq<i32>,
    h: int,
    blk: Seq<int>,
    fl: Seq<int>,
    u: int,
    t: int,
    x: int,
)
    requires
        list_ok_but(e, h, blk, fl, u, x),
        !fl.contains(u),
        u != x ==> !(is_start(blk, x) && lo_of(e2, h, x) < 0),
        is_start(blk, u),
        t != u ==> !is_start(blk, t),
        lo_of(e2, h, u) >= 0,
        forall|w: int| -h <= w && 2 * (w + h) + 1 < e.len() && w != u && w != t ==> lo_of(e2, h, w) == lo_of(e, h, w),
        forall|w: int| -h <= w && 2 * (w + h) + 1 < e.len() ==> hi_of(e2, h, w) == hi_of(e, h, w),
        u != -1 && t != -1,
        -h <= -1 && 2 * (-1 + h) + 1 < e.len(),
        forall|s: int| #[trigger] is_start(blk, s) ==> -h <= s && 2 * (s + h) + 1 < e.len(),
    ensures
        list_ok_but(e2, h, blk, fl, -1, -1),
{
    reveal(list_ok_but);
    assert forall|i: int| 0 <= i < fl.len() implies lo_of(e2, h, #[trigger] fl[i]) == lo_of(e, h, fl[i]) by {
        assert(is_start(blk, fl[i]));
        assert(fl[i] != u);
    }
    assert forall|s: int| #[trigger] is_start(blk, s) && lo_of(e2, h, s) < 0 implies fl.contains(s) by {
        assert(s != u && s != t);
    }
}

/// Leaving more units out of the free list's promise keeps it.
#[verifier::spinoff_prover]
proof fn lemma_list_weaken(e: Seq<i32>, h: int, blk: Seq<int>, fl: Seq<int>, x: int, y: int, x2: int, y2: int)
    requires
        list_ok_but(e, h, blk, fl, x, y),
        forall|s: int| #[trigger] is_start(blk, s) && s != x2 && s != y2 ==> s != x && s != y,
    ensures
        list_ok_but(e, h, blk, fl, x2, y2),
{
    reveal(list_ok_but);
}

/// Merging the blocks of `start..c` into one block keeps the units cut into
/// blocks.
#[verifier::spinoff_prover]
proof fn lemma_merge_blocks(
    e0: Seq<i32>,
    e2: Seq<i32>,
    h: int,
    n: int,
    blk: Seq<int>,
    start: int,
    c: int,
)
    requires
        blocks_ok(e0, h, n, blk),
        is_start(blk, start),
        start < c <= n,
        c == n || is_start(blk, c),
        e2.len() == e0.len(),
        2 * (n + h) + 1 < e0.len(),
        0 <= h,
        size_of(e2, h, start) == c - start && tail_ok(e2, h, start),
        forall|w: int| -h <= w && 2 * (w + h) + 1 < e0.len() && (w < start || w >= c) ==> hi_of(e2, h, w) == hi_of(e0, h, w),
    ensures
        blocks_ok(e2, h, n, retiled(blk, start, c, start)),
{
    let blk2 = retiled(blk, start, c, start);
    lemma_blocks_cut(e0, h, blk, 0, start, c, n);
    lemma_blocks_frame(e0, e2, h, blk, blk2, 0, start);
    lemma_blocks_frame(e0, e2, h, blk, blk2, c, n);
    lemma_one_block(e2, h, blk2, start, c);
    lemma_blocks_concat(e2, h, blk2, 0, start, c);
    lemma_blocks_concat(e2, h, blk2, 0, c, n);
}

/// Taking `x` out of a sequence without duplicates leaves neither `x` nor
/// anything new in it.
#[verifier::spinoff_prover]
proof fn lemma_without(s: Seq<int>, x: int)
    requires
        s.no_duplicates(),
    ensures
        !without(s, x).contains(x),
        forall|y: int| without(s, x).contains(y) ==> s.contains(y),
        without(s, x).no_duplicates(),
        !s.contains(x) ==> without(s, x) == s,
{
    if s.contains(x) {
        let k = s.index_of(x);
        let s2 = s.remove(k);
        s.remove_ensures(k);
        assert forall|y: int| s2.contains(y) implies s.contains(y) by {
            let i = choose|i: int| 0 <= i < s2.len() && s2[i] == y;
            if i < k {
                assert(s[i] == y);
            } else {
                assert(s[i + 1] == y);
            }
        }
        if s2.contains(x) {
            let i = choose|i: int| 0 <= i < s2.len() && s2[i] == x;
            if i < k {
                assert(s[i] == x);
            } else {
                assert(s[i + 1] == x);
            }
        }
        assert forall|i: int, j: int| 0 <= i < s2.len() && 0 <= j < s2.len() && i != j implies s2[i] != s2[j] by {
            let i0 = if i < k { i } else { i + 1 };
            let j0 = if j < k { j } else { j + 1 };
            assert(s2[i] == s[i0] && s2[j] == s[j0]);
        }
    }
}

/// The blocks of a mapped range of `x` bytes, in blocks of `ppb` pages: the
/// pages of the range, divided by `ppb`, times the `ppb * 512` units of a
/// block, are its `x / 8` units.
#[verifier::spinoff_prover]
proof fn lemma_capacity(x: int, ppb: int)
    requires
        x >= 0,
        ppb >= 1,
        x % (4096 * ppb) == 0,
    ensures
        (x + 4095) / 4096 == (x / (4096 * ppb)) * ppb,
        ((x + 4095) / 4096) / ppb == x / (4096 * ppb),
        (x / (4096 * ppb)) * (ppb * 512) == x / 8,
        x % 8 == 0,
        x % 4 == 0,
{
    let d = 4096 * ppb;
    let m = x / d;
    vstd::arithmetic::div_mod::lemma_fundamental_div_mod(x, d);
    assert(x == m * d);
    assert(m >= 0) by (nonlinear_arith)
        requires x >= 0, d > 0, m == x / d;
    assert(x == (m * ppb) * 4096) by (nonlinear_arith)
        requires x == m * d, d == 4096 * ppb;
    assert((x + 4095) / 4096 == m * ppb) by (nonlinear_arith)
        requires x == (m * ppb) * 4096, m * ppb >= 0;
    assert((m * ppb) / ppb == m) by (nonlinear_arith)
        requires ppb >= 1, m >= 0;
    assert(x == (m * ppb * 512) * 8) by (nonlinear_arith)
        requires x == (m * ppb) * 4096;
    assert(x / 8 == m * ppb * 512) by (nonlinear_arith)
        requires x == (m * ppb * 512) * 8;
    assert(m * (ppb * 512) == m * ppb * 512) by (nonlinear_arith);
    assert(x % 8 == 0) by (nonlinear_arith)
        requires x == (m * ppb * 512) * 8;
    assert(x % 4 == 0) by (nonlinear_arith)
        requires x == (m * ppb * 1024) * 4, x == (m * ppb * 512) * 8;
}

/// Mapping more words after the words `e` keeps what they hold.
#[verifier::spinoff_prover]
proof fn lemma_extend(e: Seq<i32>, e2: Seq<i32>, h: int, n: int, blk: Seq<int>, fl: Seq<int>)
    requires
        structure_ok(e, h, n, blk, fl),
        0 <= n,
        1 <= h,
        e2.len() >= e.len(),
        forall|i: int| 0 <= i < e.len() ==> e2[i] == e[i],
    ensures
        structure_ok(e2, h, n, blk, fl),
{
    lemma_blocks_frame(e, e2, h, blk, blk, 0, n);
    assert forall|s: int| #[trigger] is_start(blk, s) implies -h <= s && 2 * (s + h) + 1 < e.len() by {}
    assert forall|i: int| 0 <= i < fl.len() implies is_start(blk, #[trigger] fl[i]) by {
        lemma_list_facts(e, h, blk, fl, -1, -1);
    }
    lemma_list_reshape(e, e2, h, blk, blk, fl, -1, -1, -1, -1);
    assert(e2[2 * (-1 + h)] == e[2 * (-1 + h)]);
    assert(e2[2 * (-1 + h) + 1] == e[2 * (-1 + h) + 1]);
    assert(e2[2 * (n + h)] == e[2 * (n + h)]);
}

/// A free list kept in raw memory.
pub struct RawMemoryFreeList {
    head: i32,
    heads: i32,
    base: u64,
    limit: u64,
    high_water: u64,
    max_units: i32,
    grain: i32,
    current_units: i32,
    pages_per_block: i32,
    strategy: MmapStrategy,
    /// The words of the mapped range `base..high_water`.
    entries: Vec<i32>,
    /// The start of the block of each unit.
    blk: Ghost<Seq<int>>,
    /// The free blocks in list order.
    fl: Ghost<Seq<int>>,
}

impl RawMemoryFreeList {
    /// The words of the list.
    pub closed spec fn words(&self) -> Seq<i32> {
        self.entries@
    }

    /// The number of list heads.
    pub closed spec fn heads_spec(&self) -> int {
        self.heads as int
    }

    /// The number of units the list holds.
    pub closed spec fn units(&self) -> int {
        self.current_units as int
    }

    /// `u` names a unit or a head whose words are mapped.
    pub open spec fn in_table(&self, u: int) -> bool {
        -self.heads_spec() <= u && 2 * (u + self.heads_spec()) + 1 < self.words().len()
    }

    /// The next unit after `u` in the free list (`-1`: the head).
    pub open spec fn next_spec(&self, u: int) -> int {
        link(hi_of(self.words(), self.heads_spec(), u))
    }

    /// The unit before `u` in the free list (`-1`: the head).
    pub open spec fn prev_spec(&self, u: int) -> int {
        link(lo_of(self.words(), self.heads_spec(), u))
    }

    /// The size of the block at `u`.
    pub open spec fn size_spec(&self, u: int) -> int {
        size_of(self.words(), self.heads_spec(), u)
    }

    /// The block at `u` is free.
    pub open spec fn free_spec(&self, u: int) -> bool {
        lo_of(self.words(), self.heads_spec(), u) < 0
    }

    /// The block at `u` has more than one unit.
    pub open spec fn multi_spec(&self, u: int) -> bool {
        hi_of(self.words(), self.heads_spec(), u) < 0
    }

    /// The block at `u` may coalesce with its neighbours.
    pub open spec fn coalescable_spec(&self, u: int) -> bool {
        lo_of(self.words(), self.heads_spec(), u) & 0x4000_0000 == 0
    }

    /// The start of the block to the left of the block at `u`.
    pub open spec fn left_spec(&self, u: int) -> int {
        left_of(self.words(), self.heads_spec(), u)
    }

    /// The free blocks in the order of the free list.
    pub closed spec fn free_order(&self) -> Seq<int> {
        self.fl@
    }

    /// The blocks of the list: the start of each block, with its size and
    /// whether it is free.
    pub closed spec fn blocks(&self) -> Map<int, (int, bool)> {
        Map::new(
            |s: int| is_start(self.blk@, s),
            |s: int| (self.size_spec(s), self.free_spec(s)),
        )
    }

    /// The fields other than the words are unchanged.
    spec fn same_but_words(&self, other: &Self) -> bool {
        &&& self.head == other.head
        &&& self.heads == other.heads
        &&& self.base == other.base
        &&& self.limit == other.limit
        &&& self.high_water == other.high_water
        &&& self.max_units == other.max_units
        &&& self.grain == other.grain
        &&& self.current_units == other.current_units
        &&& self.pages_per_block == other.pages_per_block
        &&& self.strategy == other.strategy
        &&& self.blk == other.blk
        &&& self.fl == other.fl
    }

    /// The words are indexable by `i32`, and the list has its heads.
    spec fn table(&self) -> bool {
        &&& self.entries@.len() <= 0x2000_0000
        &&& 1 <= self.heads <= MAX_HEADS
        &&& self.head == -1
    }

    /// The list is well formed: its words hold the blocks and the free list
    /// that its ghost state describes.
    pub closed spec fn wf(&self) -> bool {
        let e = self.entries@;
        let h = self.heads as int;
        let n = self.current_units as int;
        &&& self.table()
        &&& 1 <= self.grain
        &&& 1 <= self.pages_per_block <= 0x8_0000
        &&& 0 <= self.current_units <= self.max_units <= MAX_UNITS
        &&& self.base <= self.high_water <= self.limit
        &&& self.limit - self.base <= 0x8000_0000
        &&& (self.high_water - self.base) % (4096 * self.pages_per_block as int) == 0
        &&& e.len() * 4 == self.high_water - self.base
        &&& forall|i: int| 0 <= i < e.len() ==> #[trigger] e[i] & 0x4000_0000 == 0
        &&& n > 0 ==> structure_ok(e, h, n, self.blk@, self.fl@)
        &&& n == 0 ==> self.fl@.len() == 0 && self.blk@.len() == 0
    }

    /// The fields other than the words and the free list are unchanged.
    spec fn same_shape(&self, other: &Self) -> bool {
        &&& self.head == other.head
        &&& self.heads == other.heads
        &&& self.base == other.base
        &&& self.limit == other.limit
        &&& self.high_water == other.high_water
        &&& self.max_units == other.max_units
        &&& self.grain == other.grain
        &&& self.current_units == other.current_units
        &&& self.pages_per_block == other.pages_per_block
        &&& self.strategy == other.strategy
        &&& self.blk == other.blk
    }

    /// The list holds units, and its words hold them as its ghost state says.
    spec fn holds_units(&self) -> bool {
        let e = self.entries@;
        let h = self.heads as int;
        let n = self.current_units as int;
        &&& self.table()
        &&& 0 < n <= MAX_UNITS
        &&& structure_ok(e, h, n, self.blk@, self.fl@)
        &&& bits_clear(e)
    }

    /// The fields other than the words and the ghost state are unchanged.
    spec fn same_fixed(&self, other: &Self) -> bool {
        &&& self.head == other.head
        &&& self.heads == other.heads
        &&& self.base == other.base
        &&& self.limit == other.limit
        &&& self.high_water == other.high_water
        &&& self.max_units == other.max_units
        &&& self.grain == other.grain
        &&& self.current_units == other.current_units
        &&& self.pages_per_block == other.pages_per_block
        &&& self.strategy == other.strategy
    }

    /// The word at `index`.
    fn get_entry(&self, index: i32) -> (r: i32)
        requires
            0 <= index < self.entries@.len(),
        ensures
            r == self.entries@[index as int],
    {
        self.entries[index as usize]
    }

    /// Set the word at `index`.
    fn set_entry(&mut self, index: i32, value: i32)
        requires
            0 <= index < old(self).entries@.len(),
        ensures
            final(self).entries@ == old(self).entries@.update(index as int, value),
            final(self).same_but_words(old(self)),
    {
        self.entries.set(index as usize, value);
    }

    /// The low word of `unit`.
    fn get_lo_entry(&self, unit: i32) -> (r: i32)
        requires
            self.in_table(unit as int),
            self.entries@.len() <= i32::MAX,
        ensures
            r == lo_of(self.words(), self.heads_spec(), unit as int),
    {
        self.get_entry((unit + self.heads) * 2)
    }

    /// The high word of `unit`.
    fn get_hi_entry(&self, unit: i32) -> (r: i32)
        requires
            self.in_table(unit as int),
            self.entries@.len() <= i32::MAX,
        ensures
            r == hi_of(self.words(), self.heads_spec(), unit as int),
    {
        self.get_entry((unit + self.heads) * 2 + 1)
    }

    /// Set the low word of `unit`.
    fn set_lo_entry(&mut self, unit: i32, value: i32)
        requires
            old(self).in_table(unit as int),
            old(self).entries@.len() <= i32::MAX,
        ensures
            final(self).entries@ == old(self).entries@.update(
                2 * (unit + old(self).heads),
                value,
            ),
            final(self).same_but_words(old(self)),
    {
        self.set_entry((unit + self.heads) * 2, value)
    }

    /// Set the high word of `unit`.
    fn set_hi_entry(&mut self, unit: i32, value: i32)
        requires
            old(self).in_table(unit as int),
            old(self).entries@.len() <= i32::MAX,
        ensures
            final(self).entries@ == old(self).entries@.update(
                2 * (unit + old(self).heads) + 1,
                value,
            ),
            final(self).same_but_words(old(self)),
    {
        self.set_entry((unit + self.heads) * 2 + 1, value)
    }

    /// The head of the free list.
    pub fn head(&self) -> (r: i32)
        requires
            self.wf(),
        ensures
            r == -1,
    {
        self.head
    }

    /// The number of heads.
    pub fn heads(&self) -> (r: i32)
        ensures
            r == self.heads_spec(),
    {
        self.heads
    }

    /// The next unit after `unit` in the free list.
    fn next_of(&self, unit: i32) -> (r: i32)
        requires
            self.table(),
            self.in_table(unit as int),
        ensures
            r == self.next_spec(unit as int),
    {
        let next = self.get_hi_entry(unit) & NEXT_MASK;
        if next <= MAX_UNITS {
            next
        } else {
            self.head
        }
    }

    /// The unit before `unit` in the free list.
    fn prev_of(&self, unit: i32) -> (r: i32)
        requires
            self.table(),
            self.in_table(unit as int),
        ensures
            r == self.prev_spec(unit as int),
    {
        let prev = self.get_lo_entry(unit) & PREV_MASK;
        if prev <= MAX_UNITS {
            prev
        } else {
            self.head
        }
    }

    /// The size of the block at `unit`.
    fn size_at(&self, unit: i32) -> (r: i32)
        requires
            self.table(),
            self.in_table(unit as int),
            self.multi_spec(unit as int) ==> self.in_table(unit + 1),
        ensures
            r == self.size_spec(unit as int),
            1 <= r <= 0x3fff_ffff || (self.multi_spec(unit as int) && 0 <= r),
    {
        proof {
            lemma_field_range(hi_of(self.words(), self.heads_spec(), unit + 1));
        }
        if (self.get_hi_entry(unit) & MULTI_MASK) == MULTI_MASK {
            proof {
                lemma_top_bit(hi_of(self.words(), self.heads_spec(), unit as int));
            }
            self.get_hi_entry(unit + 1) & SIZE_MASK
        } else {
            proof {
                lemma_top_bit(hi_of(self.words(), self.heads_spec(), unit as int));
            }
            1
        }
    }

    /// The next unit after `unit` in the free list (the head `-1` after the last).
    pub fn get_next(&self, unit: i32) -> (r: i32)
        requires
            self.wf(),
            self.in_table(unit as int),
        ensures
            r == self.next_spec(unit as int),
    {
        self.next_of(unit)
    }

    /// The unit before `unit` in the free list (the head `-1` before the first).
    pub fn get_prev(&self, unit: i32) -> (r: i32)
        requires
            self.wf(),
            self.in_table(unit as int),
        ensures
            r == self.prev_spec(unit as int),
    {
        self.prev_of(unit)
    }

    /// The size of the block at `unit`.
    pub fn get_size(&self, unit: i32) -> (r: i32)
        requires
            self.wf(),
            self.in_table(unit as int),
            self.multi_spec(unit as int) ==> self.in_table(unit + 1),
        ensures
            r == self.size_spec(unit as int),
    {
        self.size_at(unit)
    }

    /// The block at `unit` is free.
    fn free_at(&self, unit: i32) -> (r: bool)
        requires
            self.table(),
            self.in_table(unit as int),
        ensures
            r == self.free_spec(unit as int),
    {
        proof {
            lemma_top_bit(lo_of(self.words(), self.heads_spec(), unit as int));
        }
        (self.get_lo_entry(unit) & FREE_MASK) == FREE_MASK
    }

    /// The block at `unit` is free.
    pub fn is_free(&self, unit: i32) -> (r: bool)
        requires
            self.wf(),
            self.in_table(unit as int),
        ensures
            r == self.free_spec(unit as int),
    {
        self.free_at(unit)
    }

    /// The block at `unit` has more than one unit.
    pub fn is_multi(&self, unit: i32) -> (r: bool)
        requires
            self.wf(),
            self.in_table(unit as int),
        ensures
            r == self.multi_spec(unit as int),
    {
        proof {
            lemma_top_bit(hi_of(self.words(), self.heads_spec(), unit as int));
        }
        (self.get_hi_entry(unit) & MULTI_MASK) == MULTI_MASK
    }

    /// The block at `unit` may coalesce with its neighbours.
    fn coalescable_at(&self, unit: i32) -> (r: bool)
        requires
            self.table(),
            self.in_table(unit as int),
        ensures
            r == self.coalescable_spec(unit as int),
    {
        (self.get_lo_entry(unit) & COALESC_MASK) == 0
    }

    /// The block at `unit` may coalesce with its neighbours.
    pub fn is_coalescable(&self, unit: i32) -> (r: bool)
        requires
            self.wf(),
            self.in_table(unit as int),
        ensures
            r == self.coalescable_spec(unit as int),
    {
        self.coalescable_at(unit)
    }

    /// The start of the block to the left of the block at `unit`.
    fn left_at(&self, unit: i32) -> (r: i32)
        requires
            self.table(),
            self.in_table(unit - 1),
            unit <= MAX_UNITS,
        ensures
            r == self.left_spec(unit as int),
    {
        let w = self.get_hi_entry(unit - 1);
        proof {
            lemma_top_bit(w);
            lemma_field_range(w);
        }
        if (w & MULTI_MASK) == MULTI_MASK {
            unit - (w & SIZE_MASK)
        } else {
            unit - 1
        }
    }

    /// The start of the block to the left of the block at `unit`.
    pub fn get_left(&self, unit: i32) -> (r: i32)
        requires
            self.wf(),
            self.in_table(unit - 1),
            unit <= MAX_UNITS,
        ensures
            r == self.left_spec(unit as int),
    {
        self.left_at(unit)
    }

    /// The unit after the block at `unit`.
    pub fn get_right(&self, unit: i32) -> (r: i32)
        requires
            self.wf(),
            self.in_table(unit as int),
            self.multi_spec(unit as int) ==> self.in_table(unit + 1),
            unit + self.size_spec(unit as int) <= i32::MAX,
        ensures
            r == unit + self.size_spec(unit as int),
    {
        unit + self.size_at(unit)
    }

    /// Link `unit` to `next`.
    fn set_next(&mut self, unit: i32, next: i32)
        requires
            old(self).table(),
            old(self).in_table(unit as int),
            -(old(self).heads as int) <= next <= MAX_UNITS,
        ensures
            final(self).entries@ == old(self).entries@.update(
                2 * (unit + old(self).heads) + 1,
                with_field(hi_of(old(self).words(), old(self).heads_spec(), unit as int), next),
            ),
            final(self).same_but_words(old(self)),
    {
        let old_value = self.get_hi_entry(unit);
        let new_value = (old_value & !NEXT_MASK) | (next & NEXT_MASK);
        self.set_hi_entry(unit, new_value);
    }

    /// Link `unit` back to `prev`.
    fn set_prev(&mut self, unit: i32, prev: i32)
        requires
            old(self).table(),
            old(self).in_table(unit as int),
            -(old(self).heads as int) <= prev <= MAX_UNITS,
        ensures
            final(self).entries@ == old(self).entries@.update(
                2 * (unit + old(self).heads),
                with_field(lo_of(old(self).words(), old(self).heads_spec(), unit as int), prev),
            ),
            final(self).same_but_words(old(self)),
    {
        let old_value = self.get_lo_entry(unit);
        let new_value = (old_value & !PREV_MASK) | (prev & PREV_MASK);
        self.set_lo_entry(unit, new_value);
    }

    /// Set the size of the block at `unit`.
    fn set_size(&mut self, unit: i32, size: i32)
        requires
            old(self).table(),
            old(self).in_table(unit as int),
            1 <= size <= MAX_UNITS,
            size > 1 ==> old(self).in_table(unit + size - 1),
        ensures
            final(self).entries@ == sized(old(self).entries@, old(self).heads as int, unit as int, size),
            final(self).same_but_words(old(self)),
    {
        let hi = self.get_hi_entry(unit);
        if size > 1 {
            self.set_hi_entry(unit, hi | MULTI_MASK);
            self.set_hi_entry(unit + 1, MULTI_MASK | size);
            self.set_hi_entry(unit + size - 1, MULTI_MASK | size);
        } else {
            self.set_hi_entry(unit, hi & !MULTI_MASK);
        }
    }

    /// Mark the block at `unit` free or used, at its first and its last unit.
    fn set_free(&mut self, unit: i32, is_free: bool)
        requires
            old(self).table(),
            old(self).in_table(unit as int),
            old(self).multi_spec(unit as int) ==> old(self).in_table(unit + 1),
            1 <= old(self).size_spec(unit as int),
            old(self).in_table(unit + old(self).size_spec(unit as int) - 1),
            unit + old(self).size_spec(unit as int) <= MAX_UNITS,
        ensures
            final(self).entries@ == ({
                let e = old(self).entries@;
                let h = old(self).heads as int;
                let sz = size_of(e, h, unit as int);
                let w = lo_of(e, h, unit as int);
                let t = lo_of(e, h, unit + sz - 1);
                let e1 = e.update(2 * (unit + h), if is_free { w | i32::MIN } else { w & !i32::MIN });
                if sz > 1 {
                    e1.update(2 * (unit + sz - 1 + h), if is_free { t | i32::MIN } else { t & !i32::MIN })
                } else {
                    e1
                }
            }),
            final(self).same_but_words(old(self)),
    {
        let lo = self.get_lo_entry(unit);
        if is_free {
            self.set_lo_entry(unit, lo | FREE_MASK);
            let size = self.size_at(unit);
            if size > 1 {
                let lo = self.get_lo_entry(unit + size - 1);
                self.set_lo_entry(unit + size - 1, lo | FREE_MASK);
            }
        } else {
            self.set_lo_entry(unit, lo & !FREE_MASK);
            let size = self.size_at(unit);
            if size > 1 {
                let lo = self.get_lo_entry(unit + size - 1);
                self.set_lo_entry(unit + size - 1, lo & !FREE_MASK);
            }
        }
    }

    /// Make `unit` a sentinel: it links to itself both ways.
    fn set_sentinel(&mut self, unit: i32)
        requires
            old(self).table(),
            old(self).in_table(unit as int),
            -(MAX_HEADS as int) <= unit <= MAX_UNITS,
        ensures
            final(self).entries@ == old(self).entries@.update(
                2 * (unit + old(self).heads),
                0x3fff_ffff & unit,
            ).update(2 * (unit + old(self).heads) + 1, 0x3fff_ffff & unit),
            final(self).same_but_words(old(self)),
    {
        self.set_lo_entry(unit, NEXT_MASK & unit);
        self.set_hi_entry(unit, PREV_MASK & unit);
    }

    /// Put the block at `unit` at the front of the free list.
    #[verifier::spinoff_prover]
    #[verifier::rlimit(40)]
    fn add_to_free(&mut self, unit: i32)
        requires
            old(self).table(),
            0 <= unit,
            old(self).in_table(unit as int),
            old(self).multi_spec(unit as int) ==> old(self).in_table(unit + 1),
            1 <= old(self).size_spec(unit as int),
            old(self).in_table(unit + old(self).size_spec(unit as int) - 1),
            unit + old(self).size_spec(unit as int) <= MAX_UNITS,
            old(self).size_spec(unit as int) > 1 ==> !is_start(
                old(self).blk@,
                unit + old(self).size_spec(unit as int) - 1,
            ),
            is_start(old(self).blk@, unit as int),
            !old(self).fl@.contains(unit as int),
            2 * (old(self).blk@.len() + old(self).heads) <= old(self).entries@.len(),
            list_ok_but(
                old(self).words(),
                old(self).heads_spec(),
                old(self).blk@,
                old(self).fl@,
                unit as int,
                unit as int,
            ),
        ensures
            final(self).same_shape(old(self)),
            final(self).fl@ == seq![unit as int] + old(self).fl@,
            list_ok_but(final(self).words(), final(self).heads_spec(), final(self).blk@, final(self).fl@, -1, -1),
            hi_frame(old(self).words(), final(self).words(), old(self).heads_spec(), unit as int, -1),
            lo_frame(
                old(self).words(),
                final(self).words(),
                old(self).heads_spec(),
                unit as int,
                unit + old(self).size_spec(unit as int) - 1,
            ),
            final(self).free_spec(unit as int),
            bits_clear(old(self).words()) ==> bits_clear(final(self).words()),
    {
        let ghost h = self.heads_spec();
        let ghost e0 = self.words();
        let ghost fl = self.fl@;
        let ghost sz = self.size_spec(unit as int);
        self.set_free(unit, true);
        let ghost e1 = self.words();
        proof {
            lemma_top_bit(lo_of(e0, h, unit as int));
            lemma_top_bit(lo_of(e0, h, unit + sz - 1));
            assert(size_of(e1, h, unit as int) == sz);
        }
        let head = self.head;
        let next = self.next_of(head);
        proof {
            reveal(list_ok_but);
            lemma_field_range(hi_of(e1, h, -1));
            assert(next == nxt(fl, -1));
        }
        self.set_next(unit, next);
        let ghost e2 = self.words();
        self.set_next(head, unit);
        let ghost e3 = self.words();
        self.set_prev(unit, head);
        let ghost e4 = self.words();
        proof {
            if fl.len() > 0 {
                assert(fl[0] != unit);
                reveal(list_ok_but);
                assert(is_start(self.blk@, fl[0]));
            }
        }
        self.set_prev(next, unit);
        let ghost e5 = self.words();
        self.fl = Ghost(seq![unit as int] + fl);
        proof {
            lemma_with_field(hi_of(e1, h, unit as int), next);
            lemma_with_field(hi_of(e2, h, -1), unit);
            lemma_with_field(lo_of(e3, h, unit as int), head);
            lemma_with_field(lo_of(e4, h, next as int), unit);
            let t = unit + sz - 1;
            assert(link(hi_of(e5, h, unit as int)) == next && (hi_of(e5, h, unit as int) < 0) == (hi_of(e0, h, unit as int) < 0));
            assert(link(hi_of(e5, h, -1)) == unit && (hi_of(e5, h, -1) < 0) == (hi_of(e0, h, -1) < 0));
            assert forall|w: int| -h <= w && 2 * (w + h) + 1 < e0.len() && w != unit && w != -1 implies hi_of(e5, h, w) == hi_of(e0, h, w) by {}
            assert(lo_of(e5, h, unit as int) < 0 && link(lo_of(e5, h, unit as int)) == -1);
            assert(link(lo_of(e5, h, next as int)) == unit && (lo_of(e5, h, next as int) < 0) == (lo_of(e0, h, next as int) < 0));
            assert(t != unit ==> lo_of(e5, h, t) < 0);
            assert forall|w: int| -h <= w && 2 * (w + h) + 1 < e0.len() && w != unit && w != t && w != next implies lo_of(e5, h, w) == lo_of(e0, h, w) by {}
            lemma_add_to_free_list(e0, e5, h, self.blk@, fl, unit as int, t, next as int);
        }
    }

    /// Take the block at position `k` of the free list out of it.
    #[verifier::spinoff_prover]
    #[verifier::rlimit(40)]
    fn remove_from_free(&mut self, unit: i32, Ghost(k): Ghost<int>, Ghost(x): Ghost<int>)
        requires
            old(self).table(),
            0 <= k < old(self).fl@.len(),
            old(self).fl@[k] == unit,
            2 * (old(self).blk@.len() + old(self).heads) <= old(self).entries@.len(),
            list_ok_but(old(self).words(), old(self).heads_spec(), old(self).blk@, old(self).fl@, x, -1),
        ensures
            final(self).same_shape(old(self)),
            final(self).fl@ == old(self).fl@.remove(k),
            list_ok_but(final(self).words(), final(self).heads_spec(), final(self).blk@, final(self).fl@, unit as int, x),
            hi_frame(old(self).words(), final(self).words(), old(self).heads_spec(), prv(old(self).fl@, k), -1),
            lo_frame(old(self).words(), final(self).words(), old(self).heads_spec(), -1 - old(self).heads_spec(), -1 - old(self).heads_spec()),
            bits_clear(old(self).words()) ==> bits_clear(final(self).words()),
    {
        let ghost h = self.heads_spec();
        let ghost e0 = self.words();
        let ghost fl = self.fl@;
        proof {
            reveal(list_ok_but);
            assert(is_start(self.blk@, unit as int));
        }
        let next = self.next_of(unit);
        let prev = self.prev_of(unit);
        proof {
            lemma_field_range(hi_of(e0, h, unit as int));
            lemma_field_range(lo_of(e0, h, unit as int));
            if k > 0 {
                assert(is_start(self.blk@, fl[k - 1]));
            }
            if k + 1 < fl.len() {
                assert(is_start(self.blk@, fl[k + 1]));
            }
        }
        self.set_next(prev, next);
        let ghost e1 = self.words();
        self.set_prev(next, prev);
        let ghost e2 = self.words();
        self.fl = Ghost(fl.remove(k));
        proof {
            lemma_with_field(hi_of(e0, h, prev as int), next);
            lemma_with_field(lo_of(e1, h, next as int), prev);
            assert(link(hi_of(e2, h, prev as int)) == next);
            assert forall|w: int| -h <= w && 2 * (w + h) + 1 < e0.len() && w != prev implies hi_of(e2, h, w) == hi_of(e0, h, w) by {}
            assert(link(lo_of(e2, h, next as int)) == prev);
            assert forall|w: int| -h <= w && 2 * (w + h) + 1 < e0.len() && w != next implies lo_of(e2, h, w) == lo_of(e0, h, w) by {}
            assert forall|w: int| -h <= w && 2 * (w + h) + 1 < e0.len() implies (lo_of(e2, h, w) < 0) == (lo_of(e0, h, w) < 0) by {}
            lemma_remove_from_free_list(e0, e2, h, self.blk@, fl, k, x);
        }
    }

    /// Cut the block at `unit` into a block of `size` units and a free block of
    /// the rest, which goes to the front of the free list.
    #[verifier::spinoff_prover]
    #[verifier::rlimit(100)]
    fn split(&mut self, unit: i32, size: i32)
        requires
            old(self).holds_units(),
            is_start(old(self).blk@, unit as int),
            1 <= size < old(self).size_spec(unit as int),
        ensures
            final(self).holds_units(),
            final(self).same_fixed(old(self)),
            final(self).entries@.len() == old(self).entries@.len(),
            final(self).fl@ == seq![unit + size] + old(self).fl@,
            final(self).blk@ == retiled(
                old(self).blk@,
                unit + size,
                unit + old(self).size_spec(unit as int),
                unit + size,
            ),
            final(self).size_spec(unit as int) == size,
            final(self).size_spec(unit + size) == old(self).size_spec(unit as int) - size,
            final(self).free_spec(unit + size),
            final(self).free_spec(unit as int) == old(self).free_spec(unit as int),
            forall|s: int| #[trigger] is_start(old(self).blk@, s) && s != unit ==>
                final(self).size_spec(s) == old(self).size_spec(s) && final(self).free_spec(s) == old(self).free_spec(s),
    {
        let ghost h = self.heads_spec();
        let ghost n = self.current_units as int;
        let ghost e0 = self.words();
        let ghost blk = self.blk@;
        let ghost fl = self.fl@;
        let basesize = self.size_at(unit);
        let ghost u2 = unit + size;
        let ghost end = unit + basesize;
        proof {
            lemma_block_at(e0, h, blk, 0, n, unit as int);
            lemma_list_facts(e0, h, blk, fl, -1, -1);
        }
        self.set_size(unit, size);
        let ghost e1 = self.words();
        self.set_size(unit + size, basesize - size);
        let ghost e2 = self.words();
        let ghost blk2 = retiled(blk, u2, end, u2);
        self.blk = Ghost(blk2);
        proof {
            lemma_sized(e0, h, unit as int, size);
            lemma_sized(e1, h, u2, (basesize - size) as i32);
            lemma_split_blocks(e0, e1, e2, h, n, blk, blk2, unit as int, u2, end);
            assert(hi_of(e2, h, -1) == hi_of(e0, h, -1));
            assert forall|i: int| 0 <= i < fl.len() implies link(hi_of(e2, h, #[trigger] fl[i])) == link(hi_of(e0, h, fl[i])) by {
                assert(is_start(blk, fl[i]));
                if fl[i] != unit {
                    assert(fl[i] < unit || fl[i] >= end);
                }
            }
            assert forall|i: int| 0 <= i < fl.len() implies is_start(blk2, #[trigger] fl[i]) by {
                assert(is_start(blk, fl[i]));
            }
            lemma_list_reshape(e0, e2, h, blk, blk2, fl, -1, -1, u2, u2);
            assert(!fl.contains(u2)) by {
                if fl.contains(u2) {
                    let i = choose|i: int| 0 <= i < fl.len() && fl[i] == u2;
                    assert(is_start(blk, fl[i]));
                }
            }
        }
        self.add_to_free(unit + size);
        let ghost e3 = self.words();
        proof {
            lemma_blocks_frame(e2, e3, h, blk2, blk2, 0, n);
        }
    }

    /// Allocate `size` units from the free block at `unit` (position `k` of the
    /// free list), of `unit_size` units: cut off the rest, take the block out
    /// of the free list and mark it used.
    #[verifier::spinoff_prover]
    #[verifier::rlimit(60)]
    fn alloc_block(&mut self, size: i32, unit: i32, unit_size: i32, Ghost(k): Ghost<int>) -> (r: i32)
        requires
            old(self).holds_units(),
            0 <= k < old(self).fl@.len(),
            old(self).fl@[k] == unit,
            unit_size == old(self).size_spec(unit as int),
            1 <= size <= unit_size,
        ensures
            r == unit,
            final(self).holds_units(),
            final(self).same_fixed(old(self)),
            final(self).entries@.len() == old(self).entries@.len(),
            final(self).blk@ == if unit_size > size {
                retiled(old(self).blk@, unit + size, unit + unit_size, unit + size)
            } else {
                old(self).blk@
            },
            final(self).fl@ == if unit_size > size {
                seq![unit + size] + old(self).fl@.remove(k)
            } else {
                old(self).fl@.remove(k)
            },
            final(self).size_spec(unit as int) == size,
            !final(self).free_spec(unit as int),
            unit_size > size ==> final(self).size_spec(unit + size) == unit_size - size
                && final(self).free_spec(unit + size),
            forall|s: int| #[trigger] is_start(old(self).blk@, s) && s != unit ==>
                final(self).size_spec(s) == old(self).size_spec(s) && final(self).free_spec(s) == old(self).free_spec(s),
    {
        let ghost h = self.heads_spec();
        let ghost n = self.current_units as int;
        let ghost fl0 = self.fl@;
        let ghost blk0 = self.blk@;
        let ghost e0 = self.words();
        proof {
            assert(is_start(blk0, unit as int)) by {
                lemma_list_facts(e0, h, blk0, fl0, -1, -1);
            }
        }
        if unit_size >= size {
            let ghost k2 = k;
            if unit_size > size {
                self.split(unit, size);
                proof {
                    k2 = k + 1;
                    assert(self.fl@[k + 1] == unit);
                }
            }
            let ghost e1 = self.words();
            let ghost blk1 = self.blk@;
            let ghost fl1 = self.fl@;
            let ghost p = prv(fl1, k2);
            proof {
                assert(is_start(blk1, p) || p == -1) by {
                    lemma_list_facts(e1, h, blk1, fl1, -1, -1);
                }
                assert(is_start(blk1, unit as int)) by {
                    if unit_size > size {
                        assert(blk1[unit as int] == blk0[unit as int]);
                    }
                }
            }
            self.remove_from_free(unit, Ghost(k2), Ghost(-1));
            let ghost e2 = self.words();
            let ghost fl2 = self.fl@;
            proof {
                assert(blocks_ok(e2, h, n, blk1) && size_of(e2, h, unit as int) == size
                    && forall|s: int| is_start(blk1, s) ==> size_of(e2, h, s) == size_of(e1, h, s)) by {
                    lemma_blocks_frame(e1, e2, h, blk1, blk1, 0, n);
                }
                assert(size > 1 ==> !is_start(blk1, unit + size - 1)) by {
                    lemma_block_at(e1, h, blk1, 0, n, unit as int);
                }
                assert(unit + size <= n) by {
                    lemma_block_at(e1, h, blk1, 0, n, unit as int);
                }
                assert(!fl2.contains(unit as int)) by {
                    lemma_list_facts(e1, h, blk1, fl1, -1, -1);
                    fl1.remove_ensures(k2);
                    if fl2.contains(unit as int) {
                        let i = choose|i: int| 0 <= i < fl2.len() && fl2[i] == unit;
                        if i < k2 {
                            assert(fl1[i] == unit);
                        } else {
                            assert(fl1[i + 1] == unit);
                        }
                    }
                }
            }
            self.set_free(unit, false);
            let ghost e3 = self.words();
            proof {
                let t = unit + size - 1;
                lemma_top_bit(lo_of(e2, h, unit as int));
                lemma_top_bit(lo_of(e2, h, t));
                assert(list_ok_but(e3, h, blk1, fl2, -1, -1)) by {
                    assert forall|w: int| -h <= w && 2 * (w + h) + 1 < e2.len() && w != unit && w != t implies lo_of(e3, h, w) == lo_of(e2, h, w) by {}
                    assert forall|w: int| -h <= w && 2 * (w + h) + 1 < e2.len() implies hi_of(e3, h, w) == hi_of(e2, h, w) by {}
                    lemma_list_mark_used(e2, e3, h, blk1, fl2, unit as int, t, -1);
                }
                assert(blocks_ok(e3, h, n, blk1) && forall|s: int| is_start(blk1, s) ==> size_of(e3, h, s) == size_of(e2, h, s)) by {
                    assert forall|w: int| -h <= w && 2 * (w + h) + 1 < e2.len() implies hi_of(e3, h, w) == hi_of(e2, h, w) by {}
                    lemma_blocks_frame(e2, e3, h, blk1, blk1, 0, n);
                }
                if unit_size > size {
                    assert(fl2 =~= seq![unit + size] + fl0.remove(k));
                }
                assert(lo_of(e3, h, -1) == lo_of(e2, h, -1) && lo_of(e3, h, n) == lo_of(e2, h, n));
                assert(hi_of(e3, h, -1) == hi_of(e2, h, -1));
                assert(bits_clear(e3)) by {
                    assert(e2[2 * (unit + h)] & 0x4000_0000 == 0);
                    assert(e2[2 * (t + h)] & 0x4000_0000 == 0);
                }
                assert forall|s: int| #[trigger] is_start(blk0, s) && s != unit implies size_of(e3, h, s) == size_of(e0, h, s)
                    && (lo_of(e3, h, s) < 0) == (lo_of(e0, h, s) < 0) by {
                    lemma_block_at(e0, h, blk0, 0, n, unit as int);
                    assert(!(unit <= s < unit + unit_size));
                    assert(is_start(blk1, s));
                    assert(s != t) by {
                        lemma_block_at(e1, h, blk1, 0, n, unit as int);
                    }
                    assert(size_of(e1, h, s) == size_of(e0, h, s) && (lo_of(e1, h, s) < 0) == (lo_of(e0, h, s) < 0));
                    assert(size_of(e2, h, s) == size_of(e1, h, s));
                    assert((lo_of(e2, h, s) < 0) == (lo_of(e1, h, s) < 0));
                    assert(lo_of(e3, h, s) == lo_of(e2, h, s));
                }
                if unit_size > size {
                    let u2 = unit + size;
                    assert(is_start(blk1, u2));
                    assert(size_of(e2, h, u2) == size_of(e1, h, u2));
                    assert((lo_of(e2, h, u2) < 0) == (lo_of(e1, h, u2) < 0));
                    assert(lo_of(e3, h, u2) == lo_of(e2, h, u2));
                }
            }
        }
        unit
    }

    /// The view of an allocation of `size` units at position `k` of the free list.
    #[verifier::spinoff_prover]
    #[verifier::rlimit(40)]
    proof fn lemma_alloc_view(s0: Self, s1: Self, size: int, k: int)
        requires
            s0.wf(),
            s0.current_units > 0,
            s1.holds_units(),
            s1.same_fixed(&s0),
            s1.entries@.len() == s0.entries@.len(),
            0 <= k < s0.fl@.len(),
            1 <= size <= s0.size_spec(s0.fl@[k]),
            forall|j: int| 0 <= j < k ==> #[trigger] s0.size_spec(s0.fl@[j]) < size,
            ({
                let unit = s0.fl@[k];
                let unit_size = s0.size_spec(unit);
                &&& s1.blk@ == if unit_size > size {
                    retiled(s0.blk@, unit + size, unit + unit_size, unit + size)
                } else {
                    s0.blk@
                }
                &&& s1.fl@ == if unit_size > size {
                    seq![unit + size] + s0.fl@.remove(k)
                } else {
                    s0.fl@.remove(k)
                }
                &&& s1.size_spec(unit) == size
                &&& !s1.free_spec(unit)
                &&& unit_size > size ==> s1.size_spec(unit + size) == unit_size - size && s1.free_spec(unit + size)
                &&& forall|s: int| #[trigger] is_start(s0.blk@, s) && s != unit ==>
                    s1.size_spec(s) == s0.size_spec(s) && s1.free_spec(s) == s0.free_spec(s)
            }),
        ensures
            s1.wf(),
            !(forall|i: int| 0 <= i < s0.free_order().len() ==> #[trigger] s0.blocks()[s0.free_order()[i]].0 < size),
            first_fit(s0.free_order(), s0.blocks(), size, k),
            ({
                let fl = s0.free_order();
                let b = s0.blocks();
                let r = fl[k];
                let sz = b[r].0;
                &&& s1.free_order() == if sz > size {
                    seq![r + size] + fl.remove(k)
                } else {
                    fl.remove(k)
                }
                &&& s1.blocks() == if sz > size {
                    b.insert(r, (size, false)).insert(r + size, (sz - size, true))
                } else {
                    b.insert(r, (size, false))
                }
            }),
    {
        let h = s0.heads as int;
        let n = s0.current_units as int;
        let fl = s0.fl@;
        let blk0 = s0.blk@;
        let b = s0.blocks();
        let unit = fl[k];
        let sz = s0.size_spec(unit);
        lemma_list_facts(s0.entries@, h, blk0, fl, -1, -1);
        assert(is_start(blk0, unit));
        lemma_block_at(s0.entries@, h, blk0, 0, n, unit);
        assert forall|j: int| 0 <= j < k implies #[trigger] b[fl[j]].0 < size by {
            assert(is_start(blk0, fl[j]));
        }
        assert(b[fl[k]].0 >= size);
        let b2 = s1.blocks();
        let expected = if sz > size {
            b.insert(unit, (size, false)).insert(unit + size, (sz - size, true))
        } else {
            b.insert(unit, (size, false))
        };
        assert forall|x: int| #[trigger] b2.contains_key(x) == expected.contains_key(x) by {
            if sz > size && unit + size <= x < unit + sz {
                assert(blk0[x] == unit);
            }
            if x == unit {
                assert(is_start(s1.blk@, unit));
            }
        }
        assert forall|x: int| #[trigger] b2.contains_key(x) implies b2[x] == expected[x] by {
            if sz > size && unit + size <= x < unit + sz {
                assert(blk0[x] == unit);
            }
        }
        assert(b2 =~= expected);
    }

    /// Allocate a block of `size` units: the first block of the free list that
    /// is large enough, cut to size (the rest stays free, at the front of the
    /// free list). Returns the first unit of the block, or `FAILURE`.
    #[verifier::rlimit(80)]
    pub fn allocate(&mut self, size: i32) -> (r: i32)
        requires
            old(self).wf(),
            1 <= size,
        ensures
            final(self).wf(),
            final(self).units() == old(self).units(),
            (r == FAILURE) == (forall|i: int| 0 <= i < old(self).free_order().len()
                ==> #[trigger] old(self).blocks()[old(self).free_order()[i]].0 < size),
            r == FAILURE ==> *final(self) == *old(self),
            r != FAILURE ==> exists|k: int| #![auto] first_fit(old(self).free_order(), old(self).blocks(), size as int, k) && ({
                let fl = old(self).free_order();
                let b = old(self).blocks();
                let sz = b[r as int].0;
                &&& r == fl[k]
                &&& final(self).free_order() == if sz > size {
                    seq![r + size] + fl.remove(k)
                } else {
                    fl.remove(k)
                }
                &&& final(self).blocks() == allocated_blocks(b, r as int, size as int)
            }),
    {
        if self.current_units == 0 {
            return FAILURE;
        }
        let ghost s0 = *self;
        let ghost h = self.heads_spec();
        let ghost n = self.current_units as int;
        let ghost e0 = self.words();
        let ghost blk0 = self.blk@;
        let ghost fl = self.fl@;
        proof {
            assert(self.holds_units());
            lemma_list_facts(e0, h, blk0, fl, -1, -1);
        }
        let head = self.head;
        let mut unit = head;
        let mut s: i32 = 0;
        let ghost mut i: int = -1;
        loop
            invariant_except_break
                -1 <= i < fl.len(),
                unit == if i == -1 { -1 } else { fl[i] },
                forall|j: int| 0 <= j <= i ==> #[trigger] size_of(e0, h, fl[j]) < size,
            invariant
                self.table(),
                n == self.current_units,
                blocks_in(e0, h, blk0, 0, n),
                blk0.len() == n,
                e0.len() >= 2 * (n + h + 1),
                self.words() == e0,
                h == self.heads_spec(),
                head == -1,
                forall|j: int| 0 <= j < fl.len() ==> is_start(blk0, #[trigger] fl[j]),
                forall|j: int| 0 <= j < fl.len() ==> link(hi_of(e0, h, #[trigger] fl[j])) == nxt(fl, j),
                link(hi_of(e0, h, -1)) == nxt(fl, -1),
            ensures
                (unit == -1 && forall|j: int| 0 <= j < fl.len() ==> #[trigger] size_of(e0, h, fl[j]) < size)
                    || (0 <= i < fl.len() && unit == fl[i] && s == size_of(e0, h, fl[i]) && s >= size
                    && forall|j: int| 0 <= j < i ==> #[trigger] size_of(e0, h, fl[j]) < size),
            decreases fl.len() - i,
        {
            proof {
                if i >= 0 {
                    assert(is_start(blk0, fl[i]));
                }
            }
            unit = self.next_of(unit);
            proof {
                i = i + 1;
            }
            if unit == head {
                break;
            }
            proof {
                assert(is_start(blk0, unit as int));
                lemma_block_at(e0, h, blk0, 0, n, unit as int);
            }
            s = self.size_at(unit);
            if s >= size {
                break;
            }
        }
        if unit == head {
            proof {
                assert forall|j: int| 0 <= j < fl.len() implies #[trigger] s0.blocks()[fl[j]].0 < size by {
                    assert(is_start(blk0, fl[j]));
                }
            }
            FAILURE
        } else {
            let ghost k = i;
            let r = self.alloc_block(size, unit, s, Ghost(i));
            proof {
                Self::lemma_alloc_view(s0, *self, size as int, k);
            }
            r
        }
    }

    /// Make the units `start..start + size` one block, whose blocks (but for
    /// `start` and `end`) were not free, and were not in the free list.
    #[verifier::spinoff_prover]
    #[verifier::rlimit(60)]
    fn merge_range(&mut self, start: i32, size: i32, Ghost(end): Ghost<int>)
        requires
            old(self).table(),
            ({
                let e = old(self).words();
                let h = old(self).heads_spec();
                let n = old(self).current_units as int;
                let blk = old(self).blk@;
                let fl = old(self).fl@;
                let c = start + size;
                &&& 0 < n <= MAX_UNITS
                &&& e.len() >= 2 * (n + h + 1)
                &&& hi_of(e, h, -1) >= 0
                &&& lo_of(e, h, -1) >= 0
                &&& lo_of(e, h, n) >= 0
                &&& blocks_ok(e, h, n, blk)
                &&& bits_clear(e)
                &&& list_ok_but(e, h, blk, fl, start as int, end)
                &&& is_start(blk, start as int)
                &&& 2 <= size
                &&& c <= n
                &&& (c == n || is_start(blk, c))
                &&& start < end < c
                &&& forall|i: int| 0 <= i < fl.len() ==> !(start <= #[trigger] fl[i] < c)
            }),
        ensures
            final(self).same_fixed(old(self)),
            final(self).entries@.len() == old(self).entries@.len(),
            final(self).fl@ == old(self).fl@,
            final(self).blk@ == retiled(old(self).blk@, start as int, start + size, start as int),
            ({
                let e = final(self).words();
                let h = final(self).heads_spec();
                let n = final(self).current_units as int;
                &&& hi_of(e, h, -1) >= 0
                &&& lo_of(e, h, -1) >= 0
                &&& lo_of(e, h, n) >= 0
                &&& blocks_ok(e, h, n, final(self).blk@)
                &&& list_ok_but(e, h, final(self).blk@, final(self).fl@, start as int, start as int)
                &&& bits_clear(e)
                &&& size_of(e, h, start as int) == size
                &&& forall|w: int| -h <= w && 2 * (w + h) + 1 < e.len() ==> lo_of(e, h, w) == lo_of(old(self).words(), h, w)
                &&& forall|x: int| #[trigger] is_start(old(self).blk@, x) && !(start <= x < start + size) ==>
                    size_of(e, h, x) == size_of(old(self).words(), h, x)
            }),
    {
        let ghost h = self.heads_spec();
        let ghost n = self.current_units as int;
        let ghost e2 = self.words();
        let ghost blk = self.blk@;
        let ghost fl = self.fl@;
        let ghost c = start + size;
        self.set_size(start, size);
        let ghost e3 = self.words();
        let ghost blk3 = retiled(blk, start as int, c, start as int);
        self.blk = Ghost(blk3);
        proof {
            lemma_sized(e2, h, start as int, size);
            lemma_merge_blocks(e2, e3, h, n, blk, start as int, c);
            assert(list_ok_but(e3, h, blk3, fl, start as int, start as int)) by {
                lemma_list_facts(e2, h, blk, fl, start as int, end);
                assert forall|i: int| 0 <= i < fl.len() implies link(hi_of(e3, h, #[trigger] fl[i])) == link(hi_of(e2, h, fl[i])) by {
                    assert(is_start(blk, fl[i]));
                }
                assert forall|i: int| 0 <= i < fl.len() implies is_start(blk3, #[trigger] fl[i]) by {
                    assert(is_start(blk, fl[i]));
                }
                lemma_list_reshape(e2, e3, h, blk, blk3, fl, start as int, end, start as int, start as int);
            }
            assert forall|x: int| #[trigger] is_start(blk, x) && !(start <= x < c) implies size_of(e3, h, x) == size_of(e2, h, x) by {
                lemma_block_at(e2, h, blk, 0, n, x);
                if x < start {
                    assert(x + size_of(e2, h, x) <= start) by {
                        if x + size_of(e2, h, x) > start {
                            assert(blk[start as int] == x);
                        }
                    }
                }
                if hi_of(e2, h, x) < 0 {
                    assert(hi_of(e3, h, x + 1) == hi_of(e2, h, x + 1));
                }
            }
        }
    }

    /// Take the blocks at `start` and at `end` out of the free list, where
    /// they are free.
    #[verifier::spinoff_prover]
    #[verifier::rlimit(60)]
    fn take_pair_out(&mut self, start: i32, end: i32)
        requires
            old(self).holds_units(),
            is_start(old(self).blk@, start as int),
            is_start(old(self).blk@, end as int),
            start != end,
        ensures
            final(self).same_fixed(old(self)),
            final(self).entries@.len() == old(self).entries@.len(),
            final(self).blk@ == old(self).blk@,
            final(self).fl@ == without(
                without(old(self).fl@, if old(self).free_spec(end as int) { end as int } else { -1 }),
                if old(self).free_spec(start as int) { start as int } else { -1 },
            ),
            ({
                let e = final(self).words();
                let e0 = old(self).words();
                let h = final(self).heads_spec();
                let n = final(self).current_units as int;
                let fl = final(self).fl@;
                let blk = final(self).blk@;
                &&& hi_of(e, h, -1) >= 0
                &&& lo_of(e, h, -1) >= 0
                &&& lo_of(e, h, n) >= 0
                &&& blocks_ok(e, h, n, blk)
                &&& list_ok_but(e, h, blk, fl, start as int, end as int)
                &&& bits_clear(e)
                &&& forall|x: int| #[trigger] is_start(blk, x) ==> size_of(e, h, x) == size_of(e0, h, x)
                &&& forall|w: int| -h <= w && 2 * (w + h) + 1 < e0.len() ==> (#[trigger] lo_of(e, h, w) < 0) == (lo_of(e0, h, w) < 0)
                &&& fl.no_duplicates()
                &&& !fl.contains(start as int) || lo_of(e0, h, start as int) >= 0
                &&& !fl.contains(end as int) || lo_of(e0, h, end as int) >= 0
                &&& forall|i: int| 0 <= i < fl.len() ==> is_start(blk, #[trigger] fl[i]) && lo_of(e, h, fl[i]) < 0
            }),
    {
        let ghost h = self.heads_spec();
        let ghost n = self.current_units as int;
        let ghost e0 = self.words();
        let ghost blk = self.blk@;
        let ghost fl = self.fl@;
        proof {
            assert(!fl.contains(-1) && (lo_of(e0, h, end as int) < 0 ==> fl.contains(end as int))
                && (lo_of(e0, h, start as int) < 0 ==> fl.contains(start as int)) && fl.no_duplicates()) by {
                lemma_list_facts(e0, h, blk, fl, -1, -1);
            }
        }
        let end_free = self.free_at(end);
        if end_free {
            proof {
                let k = fl.index_of(end as int);
                assert(is_start(blk, prv(fl, k)) || prv(fl, k) == -1) by {
                    lemma_list_facts(e0, h, blk, fl, -1, -1);
                }
            }
            self.remove_from_free(end, Ghost(fl.index_of(end as int)), Ghost(-1));
        }
        let ghost e1 = self.words();
        let ghost fl1 = self.fl@;
        proof {
            assert(list_ok_but(e1, h, blk, fl1, end as int, -1)) by {
                if !end_free {
                    lemma_list_weaken(e1, h, blk, fl1, -1, -1, end as int, -1);
                }
            }
            assert(blocks_ok(e1, h, n, blk) && forall|x: int| is_start(blk, x) ==> size_of(e1, h, x) == size_of(e0, h, x)) by {
                if end_free {
                    lemma_blocks_frame(e0, e1, h, blk, blk, 0, n);
                }
            }
            assert(fl1 == without(fl, if end_free { end as int } else { -1 }));
            assert(forall|w: int| -h <= w && 2 * (w + h) + 1 < e0.len() ==> (#[trigger] lo_of(e1, h, w) < 0) == (lo_of(e0, h, w) < 0));
            assert(!fl1.contains(-1) && (lo_of(e1, h, start as int) < 0 ==> fl1.contains(start as int))) by {
                lemma_list_facts(e1, h, blk, fl1, end as int, -1);
            }
            lemma_without(fl, if end_free { end as int } else { -1 });
        }
        let start_free = self.free_at(start);
        if start_free {
            proof {
                let k = fl1.index_of(start as int);
                assert(is_start(blk, prv(fl1, k)) || prv(fl1, k) == -1) by {
                    lemma_list_facts(e1, h, blk, fl1, end as int, -1);
                }
            }
            self.remove_from_free(start, Ghost(fl1.index_of(start as int)), Ghost(end as int));
        }
        let ghost e2 = self.words();
        let ghost fl2 = self.fl@;
        proof {
            assert(list_ok_but(e2, h, blk, fl2, start as int, end as int)) by {
                if !start_free {
                    lemma_list_weaken(e2, h, blk, fl2, end as int, -1, start as int, end as int);
                }
            }
            assert(blocks_ok(e2, h, n, blk) && forall|x: int| is_start(blk, x) ==> size_of(e2, h, x) == size_of(e0, h, x)) by {
                if start_free {
                    lemma_blocks_frame(e1, e2, h, blk, blk, 0, n);
                }
            }
            assert(fl2 == without(fl1, if start_free { start as int } else { -1 }));
            assert(forall|w: int| -h <= w && 2 * (w + h) + 1 < e0.len() ==> (#[trigger] lo_of(e2, h, w) < 0) == (lo_of(e0, h, w) < 0));
            lemma_without(fl1, if start_free { start as int } else { -1 });
            assert(forall|i: int| 0 <= i < fl2.len() ==> is_start(blk, #[trigger] fl2[i]) && lo_of(e2, h, fl2[i]) < 0) by {
                lemma_list_facts(e2, h, blk, fl2, start as int, end as int);
            }
        }
    }

    /// Merge the blocks from `start` to `end` (and, between them, possibly
    /// the used block `mid`) into one block, taking `start` and `end` out of
    /// the free list.
    #[verifier::spinoff_prover]
    #[verifier::rlimit(60)]
    fn coalesce(&mut self, start: i32, end: i32, Ghost(mid): Ghost<int>)
        requires
            old(self).holds_units(),
            is_start(old(self).blk@, start as int),
            is_start(old(self).blk@, end as int),
            start < end,
            start + old(self).size_spec(start as int) == end || (start + old(self).size_spec(start as int) == mid
                && is_start(old(self).blk@, mid) && mid + old(self).size_spec(mid) == end
                && !old(self).free_spec(mid)),
        ensures
            final(self).same_fixed(old(self)),
            final(self).entries@.len() == old(self).entries@.len(),
            ({
                let e = final(self).words();
                let h = final(self).heads_spec();
                let n = final(self).current_units as int;
                &&& hi_of(e, h, -1) >= 0
                &&& lo_of(e, h, -1) >= 0
                &&& lo_of(e, h, n) >= 0
                &&& blocks_ok(e, h, n, final(self).blk@)
                &&& list_ok_but(e, h, final(self).blk@, final(self).fl@, start as int, start as int)
                &&& bits_clear(e)
            }),
            final(self).blk@ == retiled(
                old(self).blk@,
                start as int,
                end + old(self).size_spec(end as int),
                start as int,
            ),
            final(self).fl@ == without(
                without(old(self).fl@, if old(self).free_spec(end as int) { end as int } else { -1 }),
                if old(self).free_spec(start as int) { start as int } else { -1 },
            ),
            final(self).size_spec(start as int) == end + old(self).size_spec(end as int) - start,
            final(self).free_spec(start as int) == old(self).free_spec(start as int),
            forall|s: int| #[trigger] is_start(old(self).blk@, s) && !(start <= s <= end) ==>
                final(self).size_spec(s) == old(self).size_spec(s) && final(self).free_spec(s) == old(self).free_spec(s),
    {
        let ghost h = self.heads_spec();
        let ghost n = self.current_units as int;
        let ghost e0 = self.words();
        let ghost blk = self.blk@;
        let ghost c = end + self.size_spec(end as int);
        proof {
            assert(c <= n && (c == n || is_start(blk, c)) && size_of(e0, h, end as int) >= 1) by {
                lemma_block_at(e0, h, blk, 0, n, end as int);
            }
        }
        self.take_pair_out(start, end);
        let ghost e2 = self.words();
        let ghost fl2 = self.fl@;
        proof {
            assert(forall|x: int| start <= x < c && #[trigger] is_start(blk, x) ==> x == start || x == end
                || (x == mid && lo_of(e0, h, mid) >= 0)) by {
                assert forall|x: int| start <= x < c && #[trigger] is_start(blk, x) implies x == start || x == end
                    || (x == mid && lo_of(e0, h, mid) >= 0) by {
                    lemma_block_at(e0, h, blk, 0, n, start as int);
                    lemma_block_at(e0, h, blk, 0, n, end as int);
                    if x < start + size_of(e0, h, start as int) {
                        assert(blk[x] == start);
                    } else if x < end {
                        lemma_block_at(e0, h, blk, 0, n, mid);
                        assert(blk[x] == mid);
                    } else {
                        assert(blk[x] == end);
                    }
                }
            }
            assert(forall|i: int| 0 <= i < fl2.len() ==> !(start <= #[trigger] fl2[i] < c)) by {
                assert forall|i: int| 0 <= i < fl2.len() implies !(start <= #[trigger] fl2[i] < c) by {
                    assert(is_start(blk, fl2[i]));
                    assert(lo_of(e2, h, fl2[i]) < 0);
                    if start <= fl2[i] < c {
                        assert(fl2.contains(fl2[i]));
                        assert(0 <= fl2[i] < n);
                        assert((lo_of(e2, h, fl2[i]) < 0) == (lo_of(e0, h, fl2[i]) < 0));
                    }
                }
            }
        }
        let new_size = end - start + self.size_at(end);
        self.merge_range(start, new_size, Ghost(end as int));
        proof {
            let e3 = self.words();
            let blk3 = self.blk@;
            assert forall|x: int| #[trigger] is_start(blk, x) && !(start <= x <= end) implies
                size_of(e3, h, x) == size_of(e0, h, x) && (lo_of(e3, h, x) < 0) == (lo_of(e0, h, x) < 0) by {
                assert(!(start <= x < c)) by {
                    lemma_block_at(e0, h, blk, 0, n, end as int);
                    if end < x < c {
                        assert(blk[x] == end);
                    }
                }
                assert(is_start(blk3, x));
            }
        }
    }

    /// The unit after the block at `unit`.
    fn right_at(&self, unit: i32) -> (r: i32)
        requires
            self.table(),
            self.in_table(unit as int),
            self.multi_spec(unit as int) ==> self.in_table(unit + 1),
            unit + self.size_spec(unit as int) <= i32::MAX,
        ensures
            r == unit + self.size_spec(unit as int),
    {
        unit + self.size_at(unit)
    }

    /// The neighbours of the block at `unit`: the block before it (if any)
    /// ends where it starts, and the block after it (if any) starts where it
    /// ends.
    #[verifier::spinoff_prover]
    proof fn lemma_neighbours(&self, unit: int)
        requires
            self.holds_units(),
            is_start(self.blk@, unit),
        ensures
            ({
                let b = self.blocks();
                let n = self.current_units as int;
                let r = unit + self.size_spec(unit);
                let l = self.left_spec(unit);
                &&& r <= n
                &&& r < n ==> is_start(self.blk@, r)
                &&& r == n ==> !self.free_spec(r) && !b.contains_key(r)
                &&& free_right(b, unit) == if r < n && self.free_spec(r) { r } else { -1 }
                &&& unit == 0 ==> l == -1 && !self.free_spec(-1) && free_left(b, unit) == -1
                &&& unit > 0 ==> is_start(self.blk@, l) && l + self.size_spec(l) == unit
                    && free_left(b, unit) == if self.free_spec(l) { l } else { -1 }
                &&& self.coalescable_spec(unit) && self.coalescable_spec(r)
            }),
    {
        let e = self.words();
        let h = self.heads_spec();
        let n = self.current_units as int;
        let blk = self.blk@;
        let b = self.blocks();
        lemma_block_at(e, h, blk, 0, n, unit);
        let r = unit + self.size_spec(unit);
        if r < n {
            lemma_block_at(e, h, blk, 0, n, r);
        }
        assert(e[2 * (unit + h)] & 0x4000_0000 == 0);
        assert(e[2 * (r + h)] & 0x4000_0000 == 0);
        if unit == 0 {
            if exists|l: int| #[trigger] b.contains_key(l) && l + b[l].0 == unit && b[l].1 {
                let l = choose|l: int| #[trigger] b.contains_key(l) && l + b[l].0 == unit && b[l].1;
                lemma_block_at(e, h, blk, 0, n, l);
            }
        } else {
            lemma_unit_in_block(e, h, blk, 0, n, unit - 1);
            let l = blk[unit - 1];
            lemma_block_at(e, h, blk, 0, n, l);
            assert(l + size_of(e, h, l) == unit) by {
                if l + size_of(e, h, l) > unit {
                    assert(blk[unit] == l);
                }
            }
            assert(self.left_spec(unit) == l);
            if exists|l2: int| #[trigger] b.contains_key(l2) && l2 + b[l2].0 == unit && b[l2].1 {
                let l2 = choose|l2: int| #[trigger] b.contains_key(l2) && l2 + b[l2].0 == unit && b[l2].1;
                lemma_block_at(e, h, blk, 0, n, l2);
                assert(blk[unit - 1] == l2);
            } else {
                assert(!(b.contains_key(l) && l + b[l].0 == unit && b[l].1));
            }
        }
    }

    /// The blocks after merging the units `start..c` into one free block.
    #[verifier::spinoff_prover]
    proof fn lemma_merged_view(s0: Self, s1: Self, start: int, c: int)
        requires
            s0.holds_units(),
            is_start(s0.blk@, start),
            start < c <= s0.current_units,
            c == s0.current_units || is_start(s0.blk@, c),
            s1.blk@ == retiled(s0.blk@, start, c, start),
            s1.size_spec(start) == c - start,
            s1.free_spec(start),
            forall|x: int| #[trigger] is_start(s0.blk@, x) && !(start <= x < c) ==>
                s1.size_spec(x) == s0.size_spec(x) && s1.free_spec(x) == s0.free_spec(x),
        ensures
            s1.blocks() == Map::new(
                |x: int| s0.blocks().contains_key(x) && !(start < x < c),
                |x: int| if x == start { (c - start, true) } else { s0.blocks()[x] },
            ),
    {
        let b = s0.blocks();
        let expected = Map::new(
            |x: int| b.contains_key(x) && !(start < x < c),
            |x: int| if x == start { (c - start, true) } else { b[x] },
        );
        let b2 = s1.blocks();
        assert forall|x: int| #[trigger] b2.contains_key(x) == expected.contains_key(x) by {}
        assert forall|x: int| #[trigger] b2.contains_key(x) implies b2[x] == expected[x] by {}
        assert(b2 =~= expected);
    }

    /// Free the used block at `unit`: it merges with the block before it and
    /// the block after it where those are free, and the merged block goes to
    /// the front of the free list. Returns the size of the merged block if
    /// `return_coalesced_size`, else the size of the block at `unit`.
    #[verifier::spinoff_prover]
    #[verifier::rlimit(60)]
    pub fn free(&mut self, unit: i32, return_coalesced_size: bool) -> (r: i32)
        requires
            old(self).wf(),
            old(self).blocks().contains_key(unit as int),
            !old(self).blocks()[unit as int].1,
        ensures
            final(self).wf(),
            final(self).units() == old(self).units(),
            ({
                let b = old(self).blocks();
                let fl = old(self).free_order();
                let sz = b[unit as int].0;
                let l = free_left(b, unit as int);
                let rt = free_right(b, unit as int);
                let start = if l >= 0 { l } else { unit as int };
                let end = if rt >= 0 { rt + b[rt].0 } else { unit + sz };
                &&& final(self).blocks() == freed_blocks(b, unit as int)
                &&& final(self).free_order() == seq![start] + without(without(fl, rt), l)
                &&& r == if return_coalesced_size { end - start } else { sz }
            }),
    {
        let ghost s0 = *self;
        let ghost h = self.heads_spec();
        let ghost n = self.current_units as int;
        let ghost e0 = self.words();
        let ghost blk = self.blk@;
        let ghost fl = self.fl@;
        proof {
            assert(self.holds_units());
            self.lemma_neighbours(unit as int);
            lemma_block_at(e0, h, blk, 0, n, unit as int);
        }
        let mut freed = self.size_at(unit);
        let left = self.left_at(unit);
        let start = if self.coalescable_at(unit) && self.free_at(left) { left } else { unit };
        let right = self.right_at(unit);
        let end = if self.coalescable_at(right) && self.free_at(right) { right } else { unit };
        let ghost c = if end == unit { unit + freed } else { right + s0.size_spec(right as int) };
        proof {
            if right < n {
                lemma_block_at(e0, h, blk, 0, n, right as int);
            }
            if unit > 0 {
                lemma_block_at(e0, h, blk, 0, n, left as int);
            }
        }
        if start != end {
            self.coalesce(start, end, Ghost(unit as int));
        } else {
            proof {
                lemma_list_weaken(e0, h, blk, fl, -1, -1, start as int, start as int);
                assert(fl =~= without(without(fl, -1), -1)) by {
                    lemma_list_facts(e0, h, blk, fl, -1, -1);
                    lemma_without(fl, -1);
                }
                assert(retiled(blk, unit as int, c, unit as int) =~= blk);
            }
        }
        let ghost e1 = self.words();
        let ghost blk1 = self.blk@;
        let ghost fl1 = self.fl@;
        proof {
            assert(blk1 == retiled(blk, start as int, c, start as int));
            assert(fl1 == without(without(fl, free_right(s0.blocks(), unit as int)), free_left(s0.blocks(), unit as int)));
            assert(is_start(blk1, start as int));
            assert(size_of(e1, h, start as int) == c - start);
            assert(!fl1.contains(start as int)) by {
                lemma_list_facts(e0, h, blk, fl, -1, -1);
                lemma_without(fl, free_right(s0.blocks(), unit as int));
                lemma_without(without(fl, free_right(s0.blocks(), unit as int)), free_left(s0.blocks(), unit as int));
            }
            assert(c - start > 1 ==> !is_start(blk1, c - 1));
        }
        if return_coalesced_size {
            freed = self.size_at(start);
        }
        self.add_to_free(start);
        proof {
            let e2 = self.words();
            assert(blocks_ok(e2, h, n, blk1) && forall|x: int| is_start(blk1, x) ==> size_of(e2, h, x) == size_of(e1, h, x)) by {
                lemma_blocks_frame(e1, e2, h, blk1, blk1, 0, n);
            }
            assert forall|x: int| #[trigger] is_start(blk, x) && !(start <= x < c) implies
                size_of(e2, h, x) == size_of(e0, h, x) && (lo_of(e2, h, x) < 0) == (lo_of(e0, h, x) < 0) by {
                assert(is_start(blk1, x));
                assert(!(start <= x <= end));
                assert(size_of(e1, h, x) == size_of(e0, h, x) && (lo_of(e1, h, x) < 0) == (lo_of(e0, h, x) < 0));
                assert(x != c - 1);
                assert((lo_of(e2, h, x) < 0) == (lo_of(e1, h, x) < 0));
            }
            assert(self.holds_units());
            assert(self.wf());
            Self::lemma_merged_view(s0, *self, start as int, c);
        }
        freed
    }

    /// The number of pages that the words of `units` units and `heads` heads take.
    pub fn size_in_pages(units: i32, heads: i32) -> (r: i32)
        requires
            0 <= units <= MAX_UNITS,
            0 <= heads <= MAX_HEADS,
        ensures
            r == size_in_pages_spec(units as int, heads as int),
    {
        let map_size = ((units + heads + 1) as u64) << 3u64;
        proof {
            assert(((units + heads + 1) as u64) << 3u64 == ((units + heads + 1) as u64) * 8) by (bit_vector)
                requires
                    0 <= units + heads + 1 <= 0x4000_0000;
        }
        bytes_to_pages_up(map_size) as i32
    }

    /// The pages of a block of the list: those of the list, but at most 16.
    pub fn default_block_size(units: i32, heads: i32) -> (r: i32)
        requires
            0 <= units <= MAX_UNITS,
            0 <= heads <= MAX_HEADS,
        ensures
            r == if size_in_pages_spec(units as int, heads as int) < 16 {
                size_in_pages_spec(units as int, heads as int)
            } else {
                16
            },
    {
        let pages = Self::size_in_pages(units, heads);
        if pages < 16 {
            pages
        } else {
            16
        }
    }

    /// A free list of at most `units` units, in `grain`s, with `heads` heads,
    /// whose words go from `base` up to at most `limit`, mapped
    /// `pages_per_block` pages at a time with `strategy`. It holds no units yet.
    pub fn new(
        base: u64,
        limit: u64,
        pages_per_block: i32,
        units: i32,
        grain: i32,
        heads: i32,
        strategy: MmapStrategy,
    ) -> (r: Self)
        requires
            0 <= units <= MAX_UNITS,
            1 <= heads <= MAX_HEADS,
            1 <= grain,
            1 <= pages_per_block <= 0x8_0000,
            base <= limit,
            limit - base <= 0x8000_0000,
            base + size_in_pages_spec(units as int, heads as int) * 4096 <= limit,
        ensures
            r.wf(),
            r.units() == 0,
            r.free_order() == Seq::<int>::empty(),
            r.blocks() == Map::<int, (int, bool)>::empty(),
            r.heads_spec() == heads,
            r.limit_spec() == limit,
            r.words().len() == 0,
    {
        let r = RawMemoryFreeList {
            head: -1,
            heads,
            base,
            limit,
            high_water: base,
            max_units: units,
            grain,
            current_units: 0,
            pages_per_block,
            strategy,
            entries: Vec::new(),
            blk: Ghost(Seq::empty()),
            fl: Ghost(Seq::empty()),
        };
        proof {
            assert(r.blocks() =~= Map::<int, (int, bool)>::empty());
            assert(0int % (4096 * pages_per_block as int) == 0) by (nonlinear_arith)
                requires pages_per_block >= 1;
            assert(r.entries@.len() == 0);
        }
        r
    }

    /// The end of the range that the words may take.
    pub closed spec fn limit_spec(&self) -> u64 {
        self.limit
    }

    /// The end of the range that the words may take.
    pub fn get_limit(&self) -> (r: u64)
        ensures
            r == self.limit_spec(),
    {
        self.limit
    }

    /// The units that the words hold: those of the mapped blocks, but for the
    /// heads and the sentinel.
    pub closed spec fn capacity_spec(&self) -> int {
        self.entries@.len() / 2 - self.heads - 1
    }

    /// The units of a block.
    fn units_per_block(&self) -> (r: i32)
        requires
            1 <= self.pages_per_block <= 0x8_0000,
        ensures
            r == self.pages_per_block * 512,
    {
        let bytes = pages_to_bytes(self.pages_per_block as u64);
        proof {
            assert(bytes >> 3u64 == bytes / 8) by (bit_vector);
        }
        (bytes >> 3u64) as i32
    }

    /// The units of the first block: those of a block, but for the heads and
    /// the sentinel.
    fn units_in_first_block(&self) -> (r: i32)
        requires
            1 <= self.pages_per_block <= 0x8_0000,
            1 <= self.heads <= MAX_HEADS,
        ensures
            r == self.pages_per_block * 512 - self.heads - 1,
    {
        self.units_per_block() - self.heads - 1
    }

    /// The units that the mapped blocks hold.
    fn current_capacity(&self) -> (r: i32)
        requires
            self.wf(),
            self.pages_per_block <= 0x8_0000,
        ensures
            r == self.capacity_spec(),
    {
        let ghost x = (self.high_water - self.base) as int;
        let ghost ppb = self.pages_per_block as int;
        proof {
            lemma_capacity(x, ppb);
            assert(x / (4096 * ppb) <= x) by (nonlinear_arith)
                requires x >= 0, ppb >= 1;
            assert(x / (4096 * ppb) * ppb <= x / 4096 + 1) by (nonlinear_arith)
                requires x >= 0, ppb >= 1, (x + 4095) / 4096 == (x / (4096 * ppb)) * ppb;
        }
        let pages = bytes_to_pages_up(self.high_water - self.base);
        proof {
            assert(pages == (x + 4095) / 4096);
            assert(pages <= 0x10_0000);
        }
        let list_blocks = pages as i32 / self.pages_per_block;
        let first = self.units_in_first_block();
        let per_block = self.units_per_block();
        proof {
            let m = x / (4096 * ppb);
            assert(list_blocks == m);
            assert((m - 1) * (ppb * 512) == m * (ppb * 512) - ppb * 512) by (nonlinear_arith);
            assert(x / 8 <= 0x1000_0000);
            assert(self.entries@.len() / 2 == x / 8);
        }
        first + (list_blocks - 1) * per_block
    }

    /// Map `count` more words (which read as zero).
    fn map_words(&mut self, count: u64)
        requires
            old(self).entries@.len() + count <= 0x2000_0000,
        ensures
            final(self).entries@ == old(self).entries@ + Seq::new(count as nat, |i: int| 0i32),
            final(self).same_but_words(old(self)),
    {
        let mut i: u64 = 0;
        while i < count
            invariant
                i <= count,
                self.entries@ == old(self).entries@ + Seq::new(i as nat, |j: int| 0i32),
                self.same_but_words(old(self)),
                old(self).entries@.len() + count <= 0x2000_0000,
            decreases count - i,
        {
            self.entries.push(0);
            i = i + 1;
            proof {
                assert(self.entries@ =~= old(self).entries@ + Seq::new(i as nat, |j: int| 0i32));
            }
        }
    }

    /// Map `blocks` more blocks of words.
    fn raise_high_water(&mut self, blocks: i32)
        requires
            old(self).wf(),
            1 <= blocks,
            old(self).pages_per_block <= 0x8_0000,
            old(self).high_water + old(self).pages_per_block * blocks * 4096 <= old(self).limit,
        ensures
            final(self).wf(),
            final(self).entries@ == old(self).entries@ + Seq::new(
                (old(self).pages_per_block * blocks * 1024) as nat,
                |i: int| 0i32,
            ),
            final(self).high_water == old(self).high_water + old(self).pages_per_block * blocks * 4096,
            final(self).head == old(self).head,
            final(self).heads == old(self).heads,
            final(self).base == old(self).base,
            final(self).limit == old(self).limit,
            final(self).max_units == old(self).max_units,
            final(self).grain == old(self).grain,
            final(self).current_units == old(self).current_units,
            final(self).pages_per_block == old(self).pages_per_block,
            final(self).strategy == old(self).strategy,
            final(self).blk == old(self).blk,
            final(self).fl == old(self).fl,
    {
        let ghost ppb = self.pages_per_block as int;
        let ghost x = (self.high_water - self.base) as int;
        proof {
            assert(ppb * blocks <= 0x8_0000) by (nonlinear_arith)
                requires ppb * blocks * 4096 <= 0x8000_0000, ppb >= 1, blocks >= 1;
            assert(ppb * blocks >= 1) by (nonlinear_arith)
                requires ppb >= 1, blocks >= 1;
        }
        let grow_extent = pages_to_bytes((self.pages_per_block * blocks) as u64);
        let ghost e0 = self.entries@;
        proof {
            lemma_capacity(x, ppb);
        }
        self.map_words(grow_extent / 4);
        self.high_water = self.high_water + grow_extent;
        proof {
            let e = self.entries@;
            let x2 = (self.high_water - self.base) as int;
            assert(x2 == x + ppb * blocks * 4096);
            assert(x2 % (4096 * ppb) == 0) by {
                let d = 4096 * ppb;
                vstd::arithmetic::div_mod::lemma_fundamental_div_mod(x, d);
                let k = x / d + blocks;
                assert(x2 == k * d) by (nonlinear_arith)
                    requires x == d * (x / d) + x % d, x % d == 0, x2 == x + ppb * blocks * 4096, d == 4096 * ppb, k == x / d + blocks;
                vstd::arithmetic::div_mod::lemma_mod_multiples_basic(k, d);
            }
            assert(e.len() * 4 == x2);
            assert(bits_clear(e)) by {
                assert forall|i: int| 0 <= i < e.len() implies #[trigger] e[i] & 0x4000_0000 == 0 by {
                    if i >= e0.len() {
                        assert(e[i] == 0i32);
                        assert(0i32 & 0x4000_0000 == 0) by (bit_vector);
                    } else {
                        assert(e[i] == e0[i]);
                    }
                }
            }
            if self.current_units > 0 {
                lemma_extend(e0, e, self.heads as int, self.current_units as int, self.blk@, self.fl@);
            }
        }
    }

    /// Set up the sentinels of the heads.
    fn set_head_sentinels(&mut self)
        requires
            old(self).table(),
            2 * old(self).heads <= old(self).entries@.len(),
            bits_clear(old(self).entries@),
        ensures
            final(self).same_but_words(old(self)),
            final(self).entries@.len() == old(self).entries@.len(),
            bits_clear(final(self).entries@),
            lo_of(final(self).entries@, final(self).heads as int, -1) == 0x3fff_ffff & -1i32,
            hi_of(final(self).entries@, final(self).heads as int, -1) == 0x3fff_ffff & -1i32,
            forall|i: int| 2 * final(self).heads <= i < final(self).entries@.len() ==> #[trigger] final(self).entries@[i] == old(self).entries@[i],
    {
        let ghost h = self.heads as int;
        let mut i: i32 = 1;
        while i <= self.heads
            invariant
                1 <= i <= self.heads + 1,
                self.table(),
                self.same_but_words(old(self)),
                self.entries@.len() == old(self).entries@.len(),
                2 * self.heads <= self.entries@.len(),
                bits_clear(self.entries@),
                h == self.heads,
                i > 1 ==> lo_of(self.entries@, h, -1) == 0x3fff_ffff & -1i32,
                i > 1 ==> hi_of(self.entries@, h, -1) == 0x3fff_ffff & -1i32,
                forall|k: int| 2 * h <= k < self.entries@.len() ==> #[trigger] self.entries@[k] == old(self).entries@[k],
            decreases self.heads + 1 - i,
        {
            let ghost e0 = self.entries@;
            proof {
                lemma_bit30_clear(0, (-i) as i32);
            }
            self.set_sentinel(-i);
            i = i + 1;
        }
    }

    /// The view of the list grown from `s0` (of `om` units, whose words were
    /// `e0` once mapped) to `s1` (of `n` units): the blocks and the free list
    /// that growing makes.
    #[verifier::spinoff_prover]
    #[verifier::rlimit(60)]
    proof fn lemma_grown_view(
        s0: Self,
        s1: Self,
        e0: Seq<i32>,
        blk_old: Seq<int>,
        fl_old: Seq<int>,
        om: int,
        n: int,
        gf: int,
        grain: int,
        j: int,
        cb: int,
    )
        requires
            s1.wf(),
            s1.current_units == n,
            s0.heads == s1.heads,
            0 <= om < n,
            1 <= grain,
            0 <= j,
            cb == n - j * grain,
            om <= cb <= om + 1,
            grain == grow_grain(om, n, gf),
            j == grow_count(om, n, gf),
            cb == grow_first(om, n, gf),
            blk_old == s0.blk@,
            fl_old == s0.fl@,
            blk_old.len() == om,
            om > 0 ==> blocks_in(e0, s1.heads as int, blk_old, 0, om),
            e0.len() >= s0.entries@.len(),
            forall|i: int| 0 <= i < s0.entries@.len() ==> e0[i] == s0.entries@[i],
            s0.entries@.len() >= 2 * (om + s0.heads + 1) || om == 0,
            forall|v: int| 0 <= v < om ==> #[trigger] s1.blk@[v] == blk_old[v],
            forall|v: int| om <= v < cb ==> #[trigger] s1.blk@[v] == (if cb > om { om } else { -1 }),
            forall|x: int| cb <= x < n && #[trigger] is_start(s1.blk@, x) ==>
                size_of(s1.entries@, s1.heads as int, x) == grain && lo_of(s1.entries@, s1.heads as int, x) < 0,
            s1.fl@ == Seq::new(j as nat, |i: int| cb + i * grain) + fl_old,
            forall|i: int| 0 <= i < fl_old.len() ==> #[trigger] fl_old[i] < om,
            cb > om ==> hi_of(s1.entries@, s1.heads as int, om) >= 0 && lo_of(s1.entries@, s1.heads as int, om) >= 0,
            forall|x: int| #[trigger] is_start(blk_old, x) ==> size_of(s1.entries@, s1.heads as int, x) == size_of(e0, s1.heads as int, x)
                && (lo_of(s1.entries@, s1.heads as int, x) < 0) == (lo_of(e0, s1.heads as int, x) < 0),
        ensures
            s1.blocks() == grown_blocks(s0.blocks(), om, n, gf),
            s1.free_order() == grown_order(om, n, gf) + s0.free_order(),
    {
        let h = s1.heads as int;
        let e = s1.entries@;
        let blkf = s1.blk@;
        let fl = s1.fl@;
        let nb = grown_order(om, n, gf);
        assert(structure_ok(e, h, n, blkf, fl));
        assert forall|i: int| 0 <= i < nb.len() implies is_start(blkf, #[trigger] nb[i]) && cb <= nb[i] < n by {
            lemma_list_facts(e, h, blkf, fl, -1, -1);
            assert(fl[i] == nb[i]);
            assert(is_start(blkf, fl[i]));
            assert(cb <= fl[i]) by (nonlinear_arith)
                requires fl[i] == cb + i * grain, i >= 0, grain >= 1;
        }
        assert forall|x: int| cb <= x < n && #[trigger] is_start(blkf, x) implies nb.contains(x) by {
            assert(lo_of(e, h, x) < 0);
            lemma_list_facts(e, h, blkf, fl, -1, -1);
            let i = choose|i: int| 0 <= i < fl.len() && fl[i] == x;
            if i >= j {
                assert(fl[i] == fl_old[i - j]);
            }
            assert(fl[i] == cb + i * grain);
            assert(nb[i] == x);
        }
        let b0 = s0.blocks();
        let b1 = s1.blocks();
        let expected = grown_blocks(b0, om, n, gf);
        assert forall|x: int| #[trigger] is_start(blk_old, x) implies size_of(e0, h, x) == size_of(s0.entries@, h, x)
            && lo_of(e0, h, x) == lo_of(s0.entries@, h, x) by {
            lemma_block_at(e0, h, blk_old, 0, om, x);
            assert(hi_of(e0, h, x) == hi_of(s0.entries@, h, x));
            if hi_of(e0, h, x) < 0 {
                assert(hi_of(e0, h, x + 1) == hi_of(s0.entries@, h, x + 1));
            }
        }
        assert forall|x: int| #[trigger] b1.contains_key(x) == expected.contains_key(x) by {
            if 0 <= x < om {
                assert(blkf[x] == blk_old[x]);
                assert(!nb.contains(x)) by {
                    if nb.contains(x) {
                        let i = choose|i: int| 0 <= i < nb.len() && nb[i] == x;
                        assert(cb <= nb[i]);
                    }
                }
            } else if cb <= x < n {
                if nb.contains(x) {
                    let i = choose|i: int| 0 <= i < nb.len() && nb[i] == x;
                    assert(is_start(blkf, nb[i]));
                }
            } else if om <= x < cb {
                assert(!nb.contains(x)) by {
                    if nb.contains(x) {
                        let i = choose|i: int| 0 <= i < nb.len() && nb[i] == x;
                        assert(cb <= nb[i]);
                    }
                }
            } else {
                assert(!nb.contains(x)) by {
                    if nb.contains(x) {
                        let i = choose|i: int| 0 <= i < nb.len() && nb[i] == x;
                        assert(cb <= nb[i] < n);
                    }
                }
            }
        }
        assert forall|x: int| #[trigger] b1.contains_key(x) implies b1[x] == expected[x] by {
            if 0 <= x < om {
                assert(is_start(blk_old, x));
                assert(!nb.contains(x)) by {
                    if nb.contains(x) {
                        let i = choose|i: int| 0 <= i < nb.len() && nb[i] == x;
                        assert(cb <= nb[i]);
                    }
                }
            } else if om <= x < cb {
                assert(!nb.contains(x)) by {
                    if nb.contains(x) {
                        let i = choose|i: int| 0 <= i < nb.len() && nb[i] == x;
                        assert(cb <= nb[i]);
                    }
                }
            } else {
                assert(cb <= x < n);
            }
        }
        assert(b1 =~= expected);
        assert(fl =~= nb + fl_old);
    }

    /// Grow the list to `new_max` units, mapping `blocks` more blocks first.
    /// The new units become free blocks of a grain each (of all the new units,
    /// if fewer), put at the front of the free list in address order; the old
    /// sentinel becomes a used unit (or the first new block).
    #[verifier::spinoff_prover]
    #[verifier::rlimit(100)]
    fn grow_list_by_blocks(&mut self, blocks: i32, new_max: i32)
        requires
            old(self).wf(),
            old(self).pages_per_block <= 0x8_0000,
            0 <= blocks,
            blocks > 0 ==> old(self).high_water + old(self).pages_per_block * blocks * 4096 <= old(self).limit,
            old(self).current_units <= new_max <= old(self).max_units,
            new_max <= old(self).capacity_spec() + blocks * old(self).pages_per_block * 512,
            new_max > old(self).current_units || old(self).current_units == 0,
            new_max <= old(self).grain || new_max % old(self).grain == 0,
            grow_first(old(self).current_units as int, new_max as int, old(self).grain as int) - old(self).current_units <= 1,
        ensures
            final(self).wf(),
            final(self).units() == new_max,
            final(self).blocks() == grown_blocks(
                old(self).blocks(),
                old(self).current_units as int,
                new_max as int,
                old(self).grain as int,
            ),
            final(self).free_order() == grown_order(
                old(self).current_units as int,
                new_max as int,
                old(self).grain as int,
            ) + old(self).free_order(),
            final(self).limit_spec() == old(self).limit_spec(),
            final(self).heads_spec() == old(self).heads_spec(),
    {
        let ghost s0 = *self;
        let ghost blk_old = self.blk@;
        let ghost fl_old = self.fl@;
        let ghost h = self.heads as int;
        let ghost gf = self.grain as int;
        let ghost ppb = self.pages_per_block as int;
        proof {
            assert(ppb * blocks * 1024 >= 0) by (nonlinear_arith)
                requires ppb >= 1, blocks >= 0;
            lemma_capacity((s0.high_water - s0.base) as int, ppb);
        }
        if blocks > 0 {
            self.raise_high_water(blocks);
        }
        let ghost e0 = self.entries@;
        let ghost s1 = *self;
        let ghost om = self.current_units as int;
        let ghost n = new_max as int;
        proof {
            let l0 = s0.entries@.len() as int;
            assert(l0 % 2 == 0) by (nonlinear_arith)
                requires l0 * 4 == (s0.high_water - s0.base) as int, (s0.high_water - s0.base) as int % 8 == 0;
            if blocks == 0 {
                assert(ppb * blocks * 1024 == 0);
            }
            assert(e0.len() == s0.entries@.len() + ppb * blocks * 1024);
            assert(blocks * ppb * 512 * 2 == ppb * blocks * 1024) by (nonlinear_arith);
            assert(e0.len() >= 2 * (n + h + 1));
            if om > 0 {
                assert(structure_ok(e0, h, om, blk_old, fl_old));
            }
        }
        let old_max = self.current_units;
        self.current_units = new_max;
        if old_max == 0 {
            self.set_head_sentinels();
        } else {
            self.set_size(old_max, 1);
        }
        let ghost e1 = self.entries@;
        proof {
            lemma_sentinel_word(-1i32);
            if old_max > 0 {
                lemma_sized(e0, h, om, 1);
            }
        }
        if new_max == 0 {
            proof {
                assert(self.blocks() =~= grown_blocks(s0.blocks(), om, n, gf));
                assert(self.fl@ =~= grown_order(om, n, gf) + fl_old);
            }
            return;
        }
        self.set_sentinel(new_max);
        let ghost e2 = self.entries@;
        let ghost blk_init = Seq::new(n as nat, |v: int| if v < om { blk_old[v] } else { -1 });
        self.blk = Ghost(blk_init);
        proof {
            lemma_sentinel_word(new_max);
            lemma_bit30_clear(0, new_max);
            assert(forall|w: int| 0 <= w < om ==> #[trigger] hi_of(e2, h, w) == hi_of(e0, h, w));
            assert(forall|w: int| 0 <= w < om ==> #[trigger] lo_of(e2, h, w) == lo_of(e0, h, w));
            if om > 0 {
                assert(hi_of(e2, h, -1) == hi_of(e0, h, -1) && lo_of(e2, h, -1) == lo_of(e0, h, -1));
                assert(forall|w: int| -h <= w && 2 * (w + h) + 1 < e0.len() && w < om ==> #[trigger] lo_of(e2, h, w) == lo_of(e0, h, w));
            }
            if om > 0 {
                lemma_blocks_frame(e0, e2, h, blk_old, blk_init, 0, om);
                assert forall|i: int| 0 <= i < fl_old.len() implies is_start(blk_init, #[trigger] fl_old[i]) && fl_old[i] < om by {
                    lemma_list_facts(e0, h, blk_old, fl_old, -1, -1);
                    assert(is_start(blk_old, fl_old[i]));
                }
                assert forall|x: int| #[trigger] is_start(blk_old, x) implies -h <= x && 2 * (x + h) + 1 < e0.len() by {}
                lemma_list_reshape(e0, e2, h, blk_old, blk_init, fl_old, -1, -1, -1, -1);
            } else {
                reveal(blocks_in);
                reveal(list_ok_but);
                assert(fl_old.len() == 0);
            }
            reveal(blocks_in);
            assert(blocks_in(e2, h, blk_init, n, n));
        }
        let mut cursor = new_max;
        let grain = if self.grain < new_max - old_max { self.grain } else { new_max - old_max };
        cursor = cursor - grain;
        let ghost mut j: int = 0;
        proof {
            assert(self.fl@ =~= Seq::new(0, |i: int| cursor + grain + i * grain) + fl_old);
        }
        while cursor >= old_max
            invariant
                self.table(),
                h == self.heads,
                self.current_units == new_max,
                n == new_max,
                om == old_max,
                0 <= old_max < new_max <= MAX_UNITS,
                1 <= grain <= new_max - old_max,
                self.entries@.len() == e0.len(),
                e0.len() >= 2 * (n + h + 1),
                0 <= j,
                cursor + grain == n - j * grain,
                om <= cursor + grain <= n,
                self.blk@.len() == n,
                forall|v: int| 0 <= v < om ==> #[trigger] self.blk@[v] == blk_old[v],
                forall|v: int| om <= v < cursor + grain ==> #[trigger] self.blk@[v] == -1,
                blocks_in(self.entries@, h, self.blk@, 0, om),
                blocks_in(self.entries@, h, self.blk@, cursor + grain, n),
                forall|x: int| cursor + grain <= x < n && #[trigger] is_start(self.blk@, x) ==>
                    size_of(self.entries@, h, x) == grain && lo_of(self.entries@, h, x) < 0,
                self.fl@ == Seq::new(j as nat, |i: int| cursor + grain + i * grain) + fl_old,
                forall|i: int| 0 <= i < fl_old.len() ==> #[trigger] fl_old[i] < om,
                list_ok_but(self.entries@, h, self.blk@, self.fl@, -1, -1),
                hi_of(self.entries@, h, -1) >= 0,
                lo_of(self.entries@, h, -1) >= 0,
                lo_of(self.entries@, h, n) >= 0,
                bits_clear(self.entries@),
                om > 0 && cursor + grain > om ==> hi_of(self.entries@, h, om) >= 0 && lo_of(self.entries@, h, om) >= 0,
                forall|x: int| #[trigger] is_start(blk_old, x) ==> size_of(self.entries@, h, x) == size_of(e0, h, x)
                    && (lo_of(self.entries@, h, x) < 0) == (lo_of(e0, h, x) < 0),
                blk_old.len() == om,
                om > 0 ==> blocks_in(e0, h, blk_old, 0, om),
                self.high_water == s1.high_water,
                self.base == s1.base,
                self.limit == s1.limit,
                self.pages_per_block == s1.pages_per_block,
                self.grain == s1.grain,
                self.max_units == s1.max_units,
                self.head == -1,
            decreases cursor + grain,
        {
            let ghost ea = self.entries@;
            let ghost blka = self.blk@;
            let ghost fla = self.fl@;
            self.set_size(cursor, grain);
            let ghost eb = self.entries@;
            let ghost blkb = retiled(blka, cursor as int, cursor + grain, cursor as int);
            self.blk = Ghost(blkb);
            proof {
                lemma_sized(ea, h, cursor as int, grain);
                lemma_one_block(eb, h, blkb, cursor as int, cursor + grain);
                lemma_blocks_frame(ea, eb, h, blka, blkb, cursor + grain, n);
                lemma_blocks_frame(ea, eb, h, blka, blkb, 0, om);
                lemma_blocks_concat(eb, h, blkb, cursor as int, cursor + grain, n);
                assert forall|i: int| 0 <= i < fla.len() implies !(cursor <= #[trigger] fla[i] < cursor + grain) && is_start(blka, fla[i]) by {
                    lemma_list_facts(ea, h, blka, fla, -1, -1);
                    if i >= j {
                        assert(fla[i] == fl_old[i - j]);
                    }
                }
                assert forall|x: int| #[trigger] is_start(blka, x) implies -h <= x && 2 * (x + h) + 1 < e0.len() by {}
                assert forall|x: int| #[trigger] is_start(blkb, x) implies -h <= x && 2 * (x + h) + 1 < e0.len() by {}
                lemma_list_reshape(ea, eb, h, blka, blkb, fla, -1, -1, cursor as int, cursor as int);
                assert(!fla.contains(cursor as int)) by {
                    if fla.contains(cursor as int) {
                        let i = choose|i: int| 0 <= i < fla.len() && fla[i] == cursor;
                    }
                }
            }
            self.add_to_free(cursor);
            let ghost ec = self.entries@;
            proof {
                lemma_blocks_frame(eb, ec, h, blkb, blkb, cursor as int, n);
                lemma_blocks_frame(eb, ec, h, blkb, blkb, 0, om);
                assert forall|x: int| cursor <= x < n && #[trigger] is_start(blkb, x) implies
                    size_of(ec, h, x) == grain && lo_of(ec, h, x) < 0 by {
                    if x >= cursor + grain {
                        assert(is_start(blka, x));
                    }
                }
                assert forall|x: int| #[trigger] is_start(blk_old, x) implies size_of(ec, h, x) == size_of(e0, h, x)
                    && (lo_of(ec, h, x) < 0) == (lo_of(e0, h, x) < 0) by {
                    lemma_block_at(e0, h, blk_old, 0, om, x);
                    assert(is_start(blka, x) && is_start(blkb, x));
                }
                assert(self.fl@ =~= Seq::new((j + 1) as nat, |i: int| cursor + i * grain) + fl_old) by {
                    assert forall|i: int| 0 <= i < j + 1 implies #[trigger] self.fl@[i] == cursor + i * grain by {
                        if i > 0 {
                            assert(cursor + grain + (i - 1) * grain == cursor + i * grain) by (nonlinear_arith);
                        }
                    }
                }
                j = j + 1;
            }
            cursor = cursor - grain;
            proof {
                assert(cursor + grain == n - j * grain) by (nonlinear_arith)
                    requires cursor + grain + grain == n - (j - 1) * grain;
            }
        }
        let ghost cb = cursor + grain;
        let ghost e = self.entries@;
        let ghost blk = self.blk@;
        let ghost fl = self.fl@;
        proof {
            assert(grain == grow_grain(om, n, gf));
            assert(0 <= n - om - j * grain < grain) by (nonlinear_arith)
                requires cb == n - j * grain, cb >= om, cb - grain < om, cb == cursor + grain, cursor < om;
            vstd::arithmetic::div_mod::lemma_fundamental_div_mod_converse(n - om, grain as int, j, n - om - j * grain);
            assert(j == grow_count(om, n, gf));
            assert(cb == grow_first(om, n, gf));
        }
        if cursor + grain > old_max {
            self.blk = Ghost(retiled(blk, om, om + 1, om));
        }
        proof {
            let blkf = self.blk@;
            let nb = grown_order(om, n, gf);
            assert(cb <= om + 1);
            if cb > om {
                assert(om > 0) by {
                    assert(grow_first(0, n, gf) == 0) by {
                        if n > gf {
                            assert(n % gf == 0);
                            vstd::arithmetic::div_mod::lemma_fundamental_div_mod(n, gf);
                            assert((n / gf) * gf == gf * (n / gf)) by (nonlinear_arith);
                        } else {
                            assert(n / n == 1) by (nonlinear_arith)
                                requires n > 0;
                        }
                    }
                }
                lemma_one_block(e, h, blkf, om, om + 1);
                lemma_blocks_frame(e, e, h, blk, blkf, 0, om);
                lemma_blocks_frame(e, e, h, blk, blkf, cb, n);
                lemma_blocks_concat(e, h, blkf, 0, om, cb);
                lemma_blocks_concat(e, h, blkf, 0, cb, n);
                assert forall|i: int| 0 <= i < fl.len() implies is_start(blkf, #[trigger] fl[i]) by {
                    lemma_list_facts(e, h, blk, fl, -1, -1);
                    assert(is_start(blk, fl[i]));
                }
                assert forall|x: int| #[trigger] is_start(blk, x) implies -h <= x && 2 * (x + h) + 1 < e0.len() by {}
                assert forall|x: int| #[trigger] is_start(blkf, x) implies -h <= x && 2 * (x + h) + 1 < e0.len() by {}
                lemma_list_reshape(e, e, h, blk, blkf, fl, -1, -1, -1, -1);
            } else {
                lemma_blocks_concat(e, h, blk, 0, om, n);
            }
            assert(structure_ok(e, h, n, blkf, fl));
            assert(self.wf());
            Self::lemma_grown_view(s0, *self, e0, blk_old, fl_old, om, n, gf, grain as int, j, cb);
        }
    }

    /// The units of a grain.
    pub closed spec fn grain_spec(&self) -> int {
        self.grain as int
    }

    /// The most units the list may hold.
    pub closed spec fn max_units_spec(&self) -> int {
        self.max_units as int
    }

    /// The blocks to map so that the list can hold `required` units.
    pub closed spec fn blocks_needed(&self, required: int) -> int {
        let per_block = self.pages_per_block * 512;
        if required > self.capacity_spec() {
            (required - self.capacity_spec() + per_block - 1) / per_block
        } else {
            0
        }
    }

    /// Growing by `units` units stays within the limit of the mapped range,
    /// and cuts the new units into whole grains (but for the old sentinel).
    pub closed spec fn can_grow(&self, units: int) -> bool {
        let required = units + self.current_units;
        let blocks = self.blocks_needed(required);
        required > self.max_units || {
            &&& blocks == 0 || self.high_water + self.pages_per_block * blocks * 4096 <= self.limit
            &&& required <= self.grain || required % (self.grain as int) == 0
            &&& grow_first(self.current_units as int, required, self.grain as int) - self.current_units <= 1
        }
    }

    /// Grow the list by `units` units, mapping blocks of words as needed; the
    /// new units become free blocks of a grain each (see `grow_list_by_blocks`).
    /// Returns `false`, changing nothing, if the list would grow beyond its
    /// maximum.
    pub fn grow_freelist(&mut self, units: i32) -> (r: bool)
        requires
            old(self).wf(),
            0 <= units,
            units + old(self).units() <= i32::MAX,
            units > 0 || old(self).units() == 0,
            old(self).can_grow(units as int),
        ensures
            r == (units + old(self).units() <= old(self).max_units_spec()),
            !r ==> *final(self) == *old(self),
            r ==> final(self).wf() && final(self).units() == old(self).units() + units && final(self).blocks()
                == grown_blocks(
                old(self).blocks(),
                old(self).units(),
                old(self).units() + units,
                old(self).grain_spec(),
            ) && final(self).free_order() == grown_order(
                old(self).units(),
                old(self).units() + units,
                old(self).grain_spec(),
            ) + old(self).free_order(),
    {
        let required_units = units + self.current_units;
        if required_units > self.max_units {
            return false;
        }
        let capacity = self.current_capacity();
        let blocks = if required_units > capacity {
            let units_requested = required_units - capacity;
            let per_block = self.units_per_block();
            proof {
                let q = (units_requested + per_block - 1) as int;
                vstd::arithmetic::div_mod::lemma_fundamental_div_mod(q, per_block as int);
                assert((q / per_block as int) * per_block >= units_requested) by (nonlinear_arith)
                    requires q == per_block * (q / per_block as int) + q % (per_block as int), 0 <= q % (per_block as int) < per_block,
                        q == units_requested + per_block - 1, per_block >= 1;
                assert(q / per_block as int >= 0) by (nonlinear_arith)
                    requires q >= 0, per_block >= 1;
            }
            (units_requested + per_block - 1) / per_block
        } else {
            0
        };
        proof {
            let ppb = self.pages_per_block as int;
            assert(blocks * (ppb * 512) == blocks * ppb * 512) by (nonlinear_arith);
            assert(blocks >= 0 && required_units <= capacity + blocks * ppb * 512);
        }
        self.grow_list_by_blocks(blocks, required_units);
        true
    }

    /// Two blocks of a well-formed list do not overlap, and each has a unit.
    proof fn lemma_blocks_apart(&self, s: int, x: int)
        requires
            self.wf(),
            self.blocks().contains_key(s),
            self.blocks().contains_key(x),
            s != x,
        ensures
            self.blocks()[s].0 >= 1,
            !(s <= x < s + self.blocks()[s].0),
            0 <= s,
    {
        let e = self.words();
        let h = self.heads_spec();
        let n = self.current_units as int;
        let blk = self.blk@;
        assert(is_start(blk, s) && is_start(blk, x));
        assert(n > 0);
        lemma_block_at(e, h, blk, 0, n, s);
        if s <= x < s + self.blocks()[s].0 {
            assert(blk[x] == s);
        }
    }
}

/// Freeing a block right after allocating it undoes the allocation: if the
/// free block at `r` has no free neighbour, allocating `size` of its units
/// (as `allocate` does, at the start of the block) and then freeing them (as
/// `free` does) gives back the blocks of the list as they were.
pub proof fn lemma_free_undoes_allocate(list: RawMemoryFreeList, r: int, size: int)
    requires
        list.wf(),
        list.blocks().contains_key(r),
        list.blocks()[r].1,
        1 <= size <= list.blocks()[r].0,
        free_left(list.blocks(), r) == -1,
        free_right(list.blocks(), r) == -1,
    ensures
        freed_blocks(allocated_blocks(list.blocks(), r, size), r) == list.blocks(),
{
    let b = list.blocks();
    let sz = b[r].0;
    let b1 = allocated_blocks(b, r, size);
    assert forall|x: int| b.contains_key(x) && x != r implies !(r <= x < r + sz) && x >= 0 by {
        list.lemma_blocks_apart(r, x);
        list.lemma_blocks_apart(x, r);
    }
    // No free block ends where the block at `r` starts.
    assert(!(exists|l: int| #[trigger] b1.contains_key(l) && l + b1[l].0 == r && b1[l].1)) by {
        if exists|l: int| #[trigger] b1.contains_key(l) && l + b1[l].0 == r && b1[l].1 {
            let l = choose|l: int| #[trigger] b1.contains_key(l) && l + b1[l].0 == r && b1[l].1;
            if l != r && !(sz > size && l == r + size) {
                assert(b.contains_key(l) && l + b[l].0 == r && b[l].1);
            }
        }
    }
    assert(free_left(b1, r) == -1);
    let end = if sz > size { r + size + (sz - size) } else { r + size };
    assert(end == r + sz);
    if sz > size {
        assert(free_right(b1, r) == r + size);
    } else {
        assert(free_right(b1, r) == -1);
    }
    let m = freed_blocks(b1, r);
    assert(m =~= b) by {
        assert forall|x: int| #[trigger] m.contains_key(x) <==> b.contains_key(x) by {
            if b.contains_key(x) && x != r {
                assert(!(r < x < r + sz));
            }
        }
        assert forall|x: int| #[trigger] m.contains_key(x) implies m[x] == b[x] by {
            if x != r {
                assert(b1[x] == b[x]);
            }
        }
    }
}

} // verus!
