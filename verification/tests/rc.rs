use mmtk::constants::LOCAL_SIDE_METADATA_BASE_ADDRESS;
use mmtk::memory::MemoryRegion;
use mmtk::metadata::side_metadata::context::SideMetadataContext;
use mmtk::metadata::side_metadata::spec::{SideMetadataOffset, SideMetadataSpec};
use mmtk::rc::{ObjectEnvelope, ObjectRefOffsets, RefCountHelper, MAX_REF_COUNT};

/// The start of the heap in the default 64-bit layout.
const HEAP_START: u64 = 0x0000_0200_0000_0000;
/// The number of bytes in a chunk.
const BYTES_IN_CHUNK: u64 = 1 << 22;

fn helper() -> RefCountHelper {
    let rc_table = SideMetadataSpec {
        name: "RC_TABLE",
        is_global: false,
        offset: SideMetadataOffset::addr(LOCAL_SIDE_METADATA_BASE_ADDRESS),
        log_num_of_bits: 1,
        log_bytes_in_region: 3,
    };
    // The straddle marks of the first chunk of the heap lie just after its counts.
    let straddle_lines = SideMetadataSpec {
        name: "RC_STRADDLE_LINES",
        is_global: false,
        offset: SideMetadataOffset::addr(0x460E_0002_0000),
        log_num_of_bits: 3,
        log_bytes_in_region: 8,
    };
    RefCountHelper { rc_table, straddle_lines, offsets: ObjectRefOffsets { lower_bound: 0, upper_bound: 8 } }
}

/// The metadata memory of both tables for the first chunk of the heap.
fn memory(h: &RefCountHelper) -> MemoryRegion {
    let context = SideMetadataContext { global: vec![], local: vec![h.rc_table, h.straddle_lines] };
    let requests = context.try_map_metadata_space(HEAP_START, BYTES_IN_CHUNK);
    let lo = requests.iter().map(|r| r.start).min().unwrap();
    let hi = requests.iter().map(|r| r.start + r.bytes).max().unwrap();
    MemoryRegion::new_zeroed(lo, (hi - lo) as usize)
}

fn straddle(h: &RefCountHelper, mem: &MemoryRegion, line: u64) -> u64 {
    h.straddle_lines.load(mem, line)
}

#[test]
fn envelope_of_object() {
    let offsets = ObjectRefOffsets { lower_bound: 0, upper_bound: 8 };
    let e = ObjectEnvelope::of(&offsets, HEAP_START + 108);
    assert_eq!(e.start(), HEAP_START + 100);
    assert_eq!(e.line(), HEAP_START);
    assert_eq!(e.end(&offsets, 1000), HEAP_START + 1108);
    assert_eq!(e.to_object_reference(&offsets), HEAP_START + 108);
    assert!(ObjectEnvelope::needs_straddle_marks(&offsets, 249));
    assert!(!ObjectEnvelope::needs_straddle_marks(&offsets, 248));
}

#[test]
fn counts_are_sticky() {
    let h = helper();
    let mut mem = memory(&h);
    let o = HEAP_START + 64;
    assert_eq!(h.count(&mem, o), 0);
    assert!(h.is_dead(&mem, o));
    assert_eq!(h.dec(&mut mem, o), Err(0));
    assert_eq!(h.inc(&mut mem, o), Ok(0));
    assert_eq!(h.inc(&mut mem, o), Ok(1));
    assert_eq!(h.dec(&mut mem, o), Ok(2));
    assert_eq!(h.count(&mem, o), 1);
    assert_eq!(h.inc(&mut mem, o), Ok(1));
    assert_eq!(h.inc(&mut mem, o), Ok(2));
    assert_eq!(h.count(&mem, o), MAX_REF_COUNT);
    assert!(h.is_stuck(&mem, o));
    assert_eq!(h.inc(&mut mem, o), Err(3));
    assert_eq!(h.dec(&mut mem, o), Err(3));
    assert_eq!(h.stick(&mut mem, o), Err(3));
    assert_eq!(h.count(&mem, o), MAX_REF_COUNT);
    // The neighbour's count is untouched.
    assert_eq!(h.count(&mem, o + 8), 0);
}

#[test]
fn set_relaxed_and_line() {
    let h = helper();
    let mut mem = memory(&h);
    let o = HEAP_START + 72;
    h.set_relaxed(&mut mem, o, 2);
    assert_eq!(h.count(&mem, o), 2);
    h.set_line_relaxed(&mut mem, HEAP_START + 256, 1);
    assert_eq!(h.count_by_address(&mem, HEAP_START + 256), 1);
    assert_eq!(h.count(&mem, o), 2);
}

#[test]
fn mark_and_unmark_straddle_object() {
    let h = helper();
    let mut mem = memory(&h);
    // The envelope spans [HEAP_START + 100, HEAP_START + 1108): lines 1, 2 and 3 are straddled.
    let o = HEAP_START + 108;
    let size = 1000;
    h.inc(&mut mem, o).unwrap();
    h.mark_straddle_object(&mut mem, o, size);
    assert_eq!(straddle(&h, &mem, HEAP_START), 0);
    for line in [HEAP_START + 256, HEAP_START + 512, HEAP_START + 768] {
        assert_eq!(straddle(&h, &mem, line), 1);
        assert_eq!(h.count_by_address(&mem, line), 1);
    }
    assert_eq!(straddle(&h, &mem, HEAP_START + 1024), 0);
    assert_eq!(h.count_by_address(&mem, HEAP_START + 1024), 0);
    // The object's own count is untouched.
    assert_eq!(h.count(&mem, o), 1);

    // An object whose envelope starts in a straddled line.
    let inner = HEAP_START + 512 + 24;
    assert!(h.object_is_in_straddle_line_no_rc_check(&mem, inner));
    assert!(!h.object_is_in_straddle_line(&mem, inner + 8));

    h.unmark_straddle_object(&mut mem, o, size);
    for line in [HEAP_START + 256, HEAP_START + 512, HEAP_START + 768] {
        assert_eq!(straddle(&h, &mem, line), 0);
        assert_eq!(h.count_by_address(&mem, line), 0);
    }
    assert_eq!(h.count(&mem, o), 1);
}

#[test]
fn straddle_marks_stop_at_block_end() {
    let h = helper();
    let mut mem = memory(&h);
    // The envelope would reach into the next block: nothing past the block end is marked.
    let o = HEAP_START + 32768 - 100;
    h.mark_straddle_object(&mut mem, o, 1000);
    assert_eq!(straddle(&h, &mem, HEAP_START + 32768), 0);
    assert_eq!(straddle(&h, &mem, HEAP_START + 32768 + 256), 0);
    // One line before the block end is marked for an object that starts two lines earlier.
    let o = HEAP_START + 32768 - 600;
    h.mark_straddle_object(&mut mem, o, 1000);
    assert_eq!(straddle(&h, &mem, HEAP_START + 32768 - 256), 1);
    assert_eq!(straddle(&h, &mem, HEAP_START + 32768), 0);
}

#[test]
fn promote_marks_only_objects_that_span_lines() {
    let h = helper();
    let mut mem = memory(&h);
    let small = HEAP_START + 4096 + 8;
    h.promote(&mut mem, small, 100);
    assert_eq!(straddle(&h, &mem, HEAP_START + 4096 + 256), 0);
    let big = HEAP_START + 8192 + 8;
    h.promote_with_size(&mut mem, big, 600);
    assert_eq!(straddle(&h, &mem, HEAP_START + 8192 + 256), 1);
    assert_eq!(h.count_by_address(&mem, HEAP_START + 8192 + 256), 1);
    assert_eq!(straddle(&h, &mem, HEAP_START + 8192 + 512), 0);
    // Unmarking a small object changes nothing.
    h.unmark_straddle_object(&mut mem, small, 100);
    assert_eq!(straddle(&h, &mem, HEAP_START + 8192 + 256), 1);
}
