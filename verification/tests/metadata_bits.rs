use mmtk::memory::MemoryRegion;
use mmtk::metadata::global::{MetadataSpec, ObjectMemory};
use mmtk::metadata::header_metadata::HeaderMetadataSpec;
use mmtk::metadata::log_bit::{UnlogBitsOperation, VMGlobalLogBitSpec};
use mmtk::metadata::mark_bit::{MarkState, VMLocalMarkBitSpec};
use mmtk::metadata::nursery_bit::VMLocalNurseryBitSpec;
use mmtk::metadata::pin_bit::{bzero_pin_bit, VMLocalPinningBitSpec};
use mmtk::metadata::side_metadata::spec::{SideMetadataOffset, SideMetadataSpec};

const HEAP: u64 = 0x10_0000;
const SIDE_OFFSET: u64 = 0x2_0000;

/// One bit per word on the side.
fn side_bit(name: &'static str) -> MetadataSpec {
    MetadataSpec::OnSide(SideMetadataSpec {
        name,
        is_global: false,
        offset: SideMetadataOffset::addr(SIDE_OFFSET),
        log_num_of_bits: 0,
        log_bytes_in_region: 3,
    })
}

/// Bit 3 of the object's header byte.
fn header_bit() -> MetadataSpec {
    MetadataSpec::InHeader(HeaderMetadataSpec { bit_offset: 3, num_of_bits: 1 })
}

fn memory() -> ObjectMemory {
    ObjectMemory {
        heap: MemoryRegion::new_zeroed(HEAP, 4096),
        side: MemoryRegion::new_zeroed(SIDE_OFFSET + (HEAP >> 6), 128),
    }
}

#[test]
fn mark_state_with_side_bit() {
    let spec = VMLocalMarkBitSpec(side_bit("MARK"));
    let mut mem = memory();
    let mut state = MarkState::new();
    let o = HEAP + 0x40;
    assert!(!state.is_marked(&spec, &mem, o));
    assert!(state.test_and_mark(&spec, &mut mem, o));
    assert!(!state.test_and_mark(&spec, &mut mem, o));
    assert!(state.is_marked(&spec, &mem, o));
    assert!(spec.is_marked(&mem, o));
    assert!(!state.is_marked(&spec, &mem, o + 8));
    // A side mark bit keeps its meaning over a release; blocks are bulk-zeroed instead.
    state.on_global_prepare();
    state.on_global_release(&spec);
    assert!(state.is_marked(&spec, &mem, o));
    state.on_block_reset(&spec, &mut mem.side, HEAP, 1024);
    assert!(!state.is_marked(&spec, &mem, o));
    state.on_object_metadata_initialization(&spec, &mut mem, o);
    assert!(!state.is_marked(&spec, &mem, o));
}

#[test]
fn mark_state_with_header_bit_flips() {
    let spec = VMLocalMarkBitSpec(header_bit());
    let mut mem = memory();
    let mut state = MarkState::new();
    let o = HEAP + 0x80;
    state.on_object_metadata_initialization(&spec, &mut mem, o);
    assert!(!state.is_marked(&spec, &mem, o));
    state.mark(&spec, &mut mem, o);
    assert!(state.is_marked(&spec, &mem, o));
    assert_eq!(mem.heap.load_u8(o), 0b1000);
    // After a release the marked value flips: the live object reads as unmarked, without a reset.
    state.on_global_release(&spec);
    assert!(!state.is_marked(&spec, &mem, o));
    assert!(state.test_and_mark(&spec, &mut mem, o));
    assert_eq!(mem.heap.load_u8(o), 0);
    state.on_global_release(&spec);
    assert!(!state.is_marked(&spec, &mem, o));
}

#[test]
fn pinning() {
    let spec = VMLocalPinningBitSpec(side_bit("PIN"));
    let mut mem = memory();
    let o = HEAP + 0x100;
    assert!(!spec.is_object_pinned(&mem, o));
    assert!(spec.pin_object(&mut mem, o));
    assert!(!spec.pin_object(&mut mem, o));
    assert!(spec.is_object_pinned(&mem, o));
    assert!(spec.unpin_object(&mut mem, o));
    assert!(!spec.unpin_object(&mut mem, o));
    assert!(spec.pin_object(&mut mem, o));
    bzero_pin_bit(&spec, &mut mem.side, HEAP, 4096);
    assert!(!spec.is_object_pinned(&mem, o));
}

#[test]
fn log_bits() {
    let spec = VMGlobalLogBitSpec(side_bit("LOG"));
    let mut mem = memory();
    let o = HEAP + 0x200;
    assert!(!spec.is_unlogged(&mem, o));
    spec.mark_as_unlogged(&mut mem, o);
    assert!(spec.is_unlogged(&mem, o));
    spec.clear(&mut mem, o);
    assert!(!spec.is_unlogged(&mem, o));
    // Unlogging the whole byte unlogs the eight words that share it.
    spec.mark_byte_as_unlogged(&mut mem, o);
    assert!(spec.is_unlogged(&mem, o));
    assert!(spec.is_unlogged(&mem, o + 0x38));
    assert!(!spec.is_unlogged(&mem, o + 0x40));
    let header = VMGlobalLogBitSpec(header_bit());
    header.mark_byte_as_unlogged(&mut mem, o);
    assert!(header.is_unlogged(&mem, o));
    assert_eq!(mem.heap.load_u8(o), 0b1000);
}

#[test]
fn nursery_bits() {
    let spec = VMLocalNurseryBitSpec(side_bit("NURSERY"));
    let mut mem = memory();
    let o = HEAP + 0x300;
    // A zero bit means nursery.
    assert!(spec.is_nursery(&mem, o));
    spec.set_mature(&mut mem, o);
    assert!(!spec.is_nursery(&mem, o));
    assert!(spec.is_nursery(&mem, o + 8));
    spec.set_nursery(&mut mem, o);
    assert!(spec.is_nursery(&mem, o));
}

#[test]
fn unlog_bits_in_bulk() {
    let spec = VMGlobalLogBitSpec(side_bit("LOG"));
    let mut mem = memory();
    // Set the unlog bits of [HEAP + 0x40, HEAP + 0x100).
    UnlogBitsOperation::BulkSet.execute(&spec, &mut mem.side, HEAP + 0x40, 0xc0);
    assert!(!spec.is_unlogged(&mem, HEAP + 0x38));
    assert!(spec.is_unlogged(&mem, HEAP + 0x40));
    assert!(spec.is_unlogged(&mem, HEAP + 0xf8));
    assert!(!spec.is_unlogged(&mem, HEAP + 0x100));
    UnlogBitsOperation::NoOp.execute(&spec, &mut mem.side, HEAP, 0x1000);
    assert!(spec.is_unlogged(&mem, HEAP + 0x80));
    UnlogBitsOperation::BulkClear.execute(&spec, &mut mem.side, HEAP + 0x80, 0x40);
    assert!(spec.is_unlogged(&mem, HEAP + 0x78));
    assert!(!spec.is_unlogged(&mem, HEAP + 0x80));
    assert!(!spec.is_unlogged(&mem, HEAP + 0xb8));
    assert!(spec.is_unlogged(&mem, HEAP + 0xc0));
    // In-header log bits are left alone.
    let header = VMGlobalLogBitSpec(header_bit());
    UnlogBitsOperation::BulkSet.execute(&header, &mut mem.side, HEAP, 0x1000);
    assert!(!header.is_unlogged(&mem, HEAP + 0x40));
}

#[test]
fn bset_sets_every_bit_of_wider_values() {
    let spec = SideMetadataSpec {
        name: "WIDE",
        is_global: false,
        offset: SideMetadataOffset::addr(SIDE_OFFSET),
        log_num_of_bits: 2,
        log_bytes_in_region: 4,
    };
    let mut side = MemoryRegion::new_zeroed(SIDE_OFFSET + (HEAP >> 5), 128);
    spec.bset_metadata(&mut side, HEAP + 0x10, 0x20);
    assert_eq!(spec.load(&side, HEAP), 0);
    assert_eq!(spec.load(&side, HEAP + 0x10), 0xf);
    assert_eq!(spec.load(&side, HEAP + 0x20), 0xf);
    assert_eq!(spec.load(&side, HEAP + 0x30), 0);
}
