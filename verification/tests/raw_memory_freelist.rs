use mmtk::freelist::FAILURE;
use mmtk::os::MmapStrategy;
use mmtk::raw_memory_freelist::RawMemoryFreeList;

const TOP_SENTINEL: i32 = -1;
const FIRST_UNIT: i32 = 0;
const TEST_REGION_START: u64 = 0x7000_0000;
const BYTES_IN_PAGE: u64 = 4096;

fn new_raw_memory_freelist(list_size: usize, grain: i32) -> (RawMemoryFreeList, i32, i32, i32) {
    let start = TEST_REGION_START;
    let extent = BYTES_IN_PAGE;
    let pages_per_block = RawMemoryFreeList::default_block_size(list_size as _, 1);
    assert_eq!(pages_per_block, 1);
    let mut l = RawMemoryFreeList::new(
        start,
        start + extent,
        pages_per_block,
        list_size as _,
        grain,
        1,
        MmapStrategy::test(),
    );
    // Grow the free-list to map its words.
    l.grow_freelist(list_size as _);
    let last_unit = list_size as i32 - grain;
    let bottom_sentinel = list_size as i32;
    (l, list_size as _, last_unit, bottom_sentinel)
}

#[test]
fn new_free_list_grain1() {
    let (l, _, last_unit, bottom_sentinel) = new_raw_memory_freelist(5, 1);
    assert_eq!(l.head(), TOP_SENTINEL);

    assert_eq!(l.get_prev(TOP_SENTINEL), last_unit);
    assert_eq!(l.get_next(TOP_SENTINEL), FIRST_UNIT);

    assert_eq!(l.get_size(FIRST_UNIT), 1);
    assert_eq!(l.get_left(FIRST_UNIT), -1);
    assert_eq!(l.get_prev(FIRST_UNIT), -1);
    assert_eq!(l.get_right(FIRST_UNIT), 1);
    assert_eq!(l.get_next(FIRST_UNIT), 1);
    assert!(l.is_free(FIRST_UNIT));
    assert!(l.is_coalescable(FIRST_UNIT));
    assert!(!l.is_multi(FIRST_UNIT));

    assert_eq!(l.get_size(1), 1);
    assert_eq!(l.get_left(1), 0);
    assert_eq!(l.get_prev(1), 0);
    assert_eq!(l.get_right(1), 2);
    assert_eq!(l.get_next(1), 2);
    assert!(l.is_free(1));
    assert!(l.is_coalescable(1));
    assert!(!l.is_multi(1));

    assert_eq!(l.get_size(last_unit), 1);
    assert_eq!(l.get_left(last_unit), last_unit - 1);
    assert_eq!(l.get_prev(last_unit), last_unit - 1);
    assert_eq!(l.get_right(last_unit), bottom_sentinel);
    assert_eq!(l.get_next(last_unit), -1);
    assert!(l.is_free(last_unit));
    assert!(l.is_coalescable(last_unit));
    assert!(!l.is_multi(last_unit));

    assert_eq!(l.get_prev(bottom_sentinel), bottom_sentinel);
    assert_eq!(l.get_next(bottom_sentinel), bottom_sentinel);
}

#[test]
fn new_free_list_grain2() {
    let (l, _, last_unit, bottom_sentinel) = new_raw_memory_freelist(6, 2);
    assert_eq!(l.head(), TOP_SENTINEL);

    assert_eq!(l.get_prev(TOP_SENTINEL), last_unit);
    assert_eq!(l.get_next(TOP_SENTINEL), FIRST_UNIT);

    assert_eq!(l.get_size(FIRST_UNIT), 2);
    assert_eq!(l.get_left(FIRST_UNIT), -1);
    assert_eq!(l.get_prev(FIRST_UNIT), -1);
    assert_eq!(l.get_right(FIRST_UNIT), 2);
    assert_eq!(l.get_next(FIRST_UNIT), 2);
    assert!(l.is_free(FIRST_UNIT));
    assert!(l.is_coalescable(FIRST_UNIT));
    assert!(l.is_multi(FIRST_UNIT));

    assert_eq!(l.get_size(2), 2);
    assert_eq!(l.get_left(2), 0);
    assert_eq!(l.get_prev(2), 0);
    assert_eq!(l.get_right(2), 4);
    assert_eq!(l.get_next(2), 4);
    assert!(l.is_free(2));
    assert!(l.is_coalescable(2));
    assert!(l.is_multi(2));

    assert_eq!(l.get_size(last_unit), 2);
    assert_eq!(l.get_left(last_unit), last_unit - 2);
    assert_eq!(l.get_prev(last_unit), last_unit - 2);
    assert_eq!(l.get_right(last_unit), bottom_sentinel);
    assert_eq!(l.get_next(last_unit), -1);
    assert!(l.is_free(last_unit));
    assert!(l.is_coalescable(last_unit));
    assert!(l.is_multi(last_unit));

    assert_eq!(l.get_prev(bottom_sentinel), bottom_sentinel);
    assert_eq!(l.get_next(bottom_sentinel), bottom_sentinel);
}

#[test]
fn alloc_fit() {
    let (mut l, _, last_unit, _) = new_raw_memory_freelist(6, 2);
    let result = l.allocate(2);
    assert_eq!(result, 0);

    const NEXT: i32 = 2;

    assert_eq!(l.get_prev(TOP_SENTINEL), last_unit);
    assert_eq!(l.get_next(TOP_SENTINEL), NEXT);

    assert_eq!(l.get_size(FIRST_UNIT), 2);
    assert_eq!(l.get_left(FIRST_UNIT), -1);
    assert_eq!(l.get_prev(FIRST_UNIT), -1);
    assert_eq!(l.get_right(FIRST_UNIT), 2);
    assert_eq!(l.get_next(FIRST_UNIT), 2);
    assert!(!l.is_free(FIRST_UNIT)); // not free
    assert!(l.is_coalescable(FIRST_UNIT));
    assert!(l.is_multi(FIRST_UNIT));

    assert_eq!(l.get_size(2), 2);
    assert_eq!(l.get_left(2), 0);
    assert_eq!(l.get_prev(2), -1); // no prev now
    assert_eq!(l.get_right(2), 4);
    assert_eq!(l.get_next(2), 4);
    assert!(l.is_free(2));
    assert!(l.is_coalescable(2));
    assert!(l.is_multi(2));
}

#[test]
fn alloc_split() {
    let (mut l, _, last_unit, _) = new_raw_memory_freelist(6, 2);
    let result = l.allocate(1);
    assert_eq!(result, 0);

    const NEXT: i32 = 1;
    assert_eq!(l.get_prev(TOP_SENTINEL), last_unit);
    assert_eq!(l.get_next(TOP_SENTINEL), NEXT);

    assert_eq!(l.get_size(FIRST_UNIT), 1);
    assert_eq!(l.get_left(FIRST_UNIT), -1);
    assert_eq!(l.get_prev(FIRST_UNIT), 1); // prev is 1 now
    assert_eq!(l.get_right(FIRST_UNIT), 1); // right is 1 now
    assert_eq!(l.get_next(FIRST_UNIT), 2);
    assert!(!l.is_free(FIRST_UNIT)); // not free
    assert!(l.is_coalescable(FIRST_UNIT));
    assert!(!l.is_multi(FIRST_UNIT)); // not multi

    assert_eq!(l.get_size(1), 1);
    assert_eq!(l.get_left(1), 0); // unit1's left is 0
    assert_eq!(l.get_prev(1), -1); // unit1's prev is -1 (no prev, unit1 is removed form the list)
    assert_eq!(l.get_right(1), 2);
    assert_eq!(l.get_next(1), 2);
    assert!(l.is_free(1)); // not free
    assert!(l.is_coalescable(1));
    assert!(!l.is_multi(1)); // not multi

    assert_eq!(l.get_size(2), 2);
    assert_eq!(l.get_left(2), 1);
    assert_eq!(l.get_prev(2), 1); // uni2's prev is 1 now
    assert_eq!(l.get_right(2), 4);
    assert_eq!(l.get_next(2), 4);
    assert!(l.is_free(2));
    assert!(l.is_coalescable(2));
    assert!(l.is_multi(2));
}

#[test]
fn alloc_split_twice() {
    let (mut l, _, _, _) = new_raw_memory_freelist(6, 2);
    // Alloc size 1 and cause split
    let res1 = l.allocate(1);
    assert_eq!(res1, 0);
    // Alloc size 1
    let res2 = l.allocate(1);
    assert_eq!(res2, 1);

    // Next available unit has no prev now
    assert_eq!(l.get_prev(2), -1);
}

#[test]
fn alloc_skip() {
    let (mut l, _, _, _) = new_raw_memory_freelist(6, 2);
    // Alloc size 1 and cause split
    let res1 = l.allocate(1);
    assert_eq!(res1, 0);
    // Alloc size 2, we skip unit1
    let res2 = l.allocate(2);
    assert_eq!(res2, 2);

    // unit1 is still free, and linked with unit4
    assert!(l.is_free(1));
    assert_eq!(l.get_next(1), 4);
    assert_eq!(l.get_prev(4), 1);
}

#[test]
fn alloc_exhaust() {
    let (mut l, _, _, _) = new_raw_memory_freelist(6, 2);
    let res1 = l.allocate(2);
    assert_eq!(res1, 0);
    let res2 = l.allocate(2);
    assert_eq!(res2, 2);
    let res3 = l.allocate(2);
    assert_eq!(res3, 4);
    let res4 = l.allocate(2);
    assert_eq!(res4, FAILURE);
}

#[test]
fn free_unit() {
    let (mut l, _, _, _) = new_raw_memory_freelist(6, 2);
    let res1 = l.allocate(2);
    assert_eq!(res1, 0);
    let res2 = l.allocate(2);
    assert_eq!(res2, 2);

    // Unit4 is still free, but has no prev
    assert_eq!(l.get_prev(4), -1);

    // Free Unit2
    let freed = l.free(res2, false);
    assert_eq!(freed, res2);
    assert!(l.is_free(res2));
}

#[test]
fn free_coalesce() {
    let (mut l, _, _, _) = new_raw_memory_freelist(6, 2);
    let res1 = l.allocate(2);
    assert_eq!(res1, 0);
    let res2 = l.allocate(2);
    assert_eq!(res2, 2);

    // Free Unit2. It will coalesce with Unit4
    let coalesced_size = l.free(res2, true);
    assert_eq!(coalesced_size, 4);
}

#[test]
fn free_cant_coalesce() {
    let (mut l, _, _, _) = new_raw_memory_freelist(6, 2);
    let res1 = l.allocate(2);
    assert_eq!(res1, 0);
    let res2 = l.allocate(2);
    assert_eq!(res2, 2);
    let res3 = l.allocate(1);
    assert_eq!(res3, 4);

    // Free Unit2. It cannot coalesce with Unit4
    let coalesced_size = l.free(res2, true);
    assert_eq!(coalesced_size, 2);
}

#[test]
fn free_realloc() {
    let (mut l, _, _, _) = new_raw_memory_freelist(6, 2);
    let res1 = l.allocate(2);
    assert_eq!(res1, 0);
    let res2 = l.allocate(2);
    assert_eq!(res2, 2);

    // Unit4 is still free, but has no prev
    assert_eq!(l.get_prev(4), -1);

    // Free Unit2
    let freed = l.free(res2, false);
    assert_eq!(freed, res2);
    assert!(l.is_free(res2));

    // Alloc again
    let res3 = l.allocate(2);
    assert_eq!(res3, 2);
    assert!(!l.is_free(res3));

    let res4 = l.allocate(1);
    assert_eq!(res4, 4);
}

#[test]
fn free_undoes_allocate() {
    // One free block of 8 units: no free neighbours.
    let (mut l, _, _, _) = new_raw_memory_freelist(8, 8);
    assert_eq!(l.get_size(0), 8);
    assert!(l.is_free(0));
    let unit = l.allocate(3);
    assert_eq!(unit, 0);
    assert_eq!(l.get_size(0), 3);
    assert!(!l.is_free(0));
    assert_eq!(l.get_size(3), 5);
    assert!(l.is_free(3));
    assert_eq!(l.free(unit, true), 8);
    assert_eq!(l.get_size(0), 8);
    assert!(l.is_free(0));
    // The whole block can be had again.
    assert_eq!(l.allocate(8), 0);
}

#[test]
fn free_coalesces_free_neighbours() {
    // Blocks of one unit, all free: freeing an allocated unit merges it with both neighbours.
    let (mut l, _, _, _) = new_raw_memory_freelist(5, 1);
    assert_eq!(l.allocate(1), 0);
    assert_eq!(l.allocate(1), 1);
    assert_eq!(l.allocate(1), 2);
    assert_eq!(l.free(1, true), 1);
    assert_eq!(l.free(0, true), 2);
    assert_eq!(l.get_size(0), 2);
    // Freeing 2 merges it with the free block [0, 2) before it and the free unit 3 after it.
    assert_eq!(l.free(2, true), 4);
    assert_eq!(l.get_size(0), 4);
    assert!(l.is_free(0));
}
