use mmtk::memory::MemoryRegion;
use mmtk::metadata::global::{MetadataSpec, ObjectMemory};
use mmtk::metadata::mark_bit::VMLocalMarkBitSpec;
use mmtk::metadata::header_metadata::HeaderMetadataSpec;
use mmtk::metadata::side_metadata::spec::{SideMetadataOffset, SideMetadataSpec};
use mmtk::metadata::vo_bit::{
    bcopy_vo_bit_from_mark_bit, bzero_vo_bit, is_vo_addr, on_object_forwarded, on_region_swept, is_vo_bit_set, is_vo_bit_set_for_addr, is_vo_bit_set_unsafe,
    need_to_clear_vo_bits_before_tracing, on_object_marked, set_vo_bit, strategy, unset_vo_bit,
    unset_vo_bit_nocheck, validate_config, vo_bit_side_metadata_addr, VOBitConfigError,
    VOBitUpdateStrategy,
};

/// Objects live from this address; their VO bits lie at a 64th of it.
const DATA_START: u64 = 0x10_0000;

fn side_table() -> MemoryRegion {
    MemoryRegion::new_zeroed(DATA_START / 64, 4096)
}

#[test]
fn vo_bit_set_and_unset() {
    let mut mem = side_table();
    let obj = DATA_START + 0x48;
    assert!(!is_vo_bit_set(&mem, obj));
    set_vo_bit(&mut mem, obj);
    assert!(is_vo_bit_set(&mem, obj));
    assert!(is_vo_addr(&mem, obj));
    // The neighbouring word has its own bit.
    assert!(!is_vo_bit_set(&mem, obj + 8));
    assert!(!is_vo_bit_set(&mem, obj - 8));
    // The bit of 0x48 is bit 1 of the byte of 0x40..0x80.
    assert_eq!(mem.load_u8((DATA_START + 0x40) / 64), 0b10);
    unset_vo_bit(&mut mem, obj);
    assert!(!is_vo_bit_set(&mem, obj));
    assert_eq!(mem.load_u8((DATA_START + 0x40) / 64), 0);
    unset_vo_bit_nocheck(&mut mem, obj);
    assert!(!is_vo_bit_set(&mem, obj));
}

#[test]
fn vo_bit_for_addr() {
    let mut mem = side_table();
    let obj = DATA_START + 0x100;
    assert_eq!(is_vo_bit_set_for_addr(&mem, obj), None);
    set_vo_bit(&mut mem, obj);
    assert_eq!(is_vo_bit_set_for_addr(&mem, obj), Some(obj));
    assert_eq!(is_vo_bit_set_unsafe(&mem, obj), Some(obj));
    // An address whose VO bit is not mapped holds no object.
    assert_eq!(is_vo_bit_set_for_addr(&mem, 0x8), None);
    assert_eq!(is_vo_bit_set_for_addr(&mem, DATA_START + 64 * 4096), None);
}

#[test]
fn vo_bit_bzero() {
    let mut mem = side_table();
    for i in 0..32 {
        set_vo_bit(&mut mem, DATA_START + 8 * i);
    }
    // Clear the bits of the words 4..20.
    bzero_vo_bit(&mut mem, DATA_START + 32, 128);
    for i in 0..32 {
        assert_eq!(is_vo_bit_set(&mem, DATA_START + 8 * i), !(4..20).contains(&i), "word {i}");
    }
}

#[test]
fn vo_bit_table_address() {
    assert_eq!(vo_bit_side_metadata_addr(), 0);
}

#[test]
fn vo_bit_strategies() {
    assert_eq!(strategy(false), VOBitUpdateStrategy::ClearAndReconstruct);
    assert_eq!(strategy(true), VOBitUpdateStrategy::CopyFromMarkBits);
    assert!(!VOBitUpdateStrategy::ClearAndReconstruct.vo_bit_available_during_tracing());
    assert!(VOBitUpdateStrategy::CopyFromMarkBits.vo_bit_available_during_tracing());
    assert!(need_to_clear_vo_bits_before_tracing(false));
    assert!(!need_to_clear_vo_bits_before_tracing(true));
}

fn side_mark_bit(log_num_of_bits: usize, log_bytes_in_region: usize) -> MetadataSpec {
    MetadataSpec::OnSide(SideMetadataSpec {
        name: "MarkBit",
        is_global: false,
        offset: SideMetadataOffset::addr(0x4600_0000_0000),
        log_num_of_bits,
        log_bytes_in_region,
    })
}

#[test]
fn vo_bit_config() {
    let header = MetadataSpec::InHeader(HeaderMetadataSpec { bit_offset: 0, num_of_bits: 1 });
    assert_eq!(validate_config(false, &header), Ok(()));
    assert_eq!(validate_config(true, &header), Err(VOBitConfigError::MarkBitsNotOnSide));
    assert_eq!(validate_config(true, &side_mark_bit(0, 3)), Ok(()));
    assert_eq!(validate_config(true, &side_mark_bit(0, 4)), Err(VOBitConfigError::MarkBitGranularity));
    assert_eq!(validate_config(true, &side_mark_bit(1, 3)), Err(VOBitConfigError::MarkBitWidth));
}

#[test]
fn vo_bit_on_object_marked() {
    let mut mem = side_table();
    let obj = DATA_START + 0x200;
    on_object_marked(true, &mut mem, obj);
    assert!(!is_vo_bit_set(&mem, obj));
    on_object_marked(false, &mut mem, obj);
    assert!(is_vo_bit_set(&mem, obj));
}

#[test]
fn vo_bits_copied_from_mark_bits() {
    let mark = SideMetadataSpec {
        name: "MARK",
        is_global: false,
        offset: SideMetadataOffset::addr(0x8000),
        log_num_of_bits: 0,
        log_bytes_in_region: 3,
    };
    let mut mark_mem = MemoryRegion::new_zeroed(0x8000 + DATA_START / 64, 4096);
    let mut vo_mem = side_table();
    for off in [0x0u64, 0x18, 0x40, 0x88, 0x100] {
        mark.store(&mut mark_mem, DATA_START + off, 1);
    }
    set_vo_bit(&mut vo_mem, DATA_START + 0x200);
    set_vo_bit(&mut vo_mem, DATA_START + 0x10);
    // Copy [0x10, 0x100): regions 0x10 .. 0xf8.
    bcopy_vo_bit_from_mark_bit(&mut vo_mem, DATA_START + 0x10, 0xf0, &MetadataSpec::OnSide(mark), &mark_mem);
    assert!(!is_vo_bit_set(&vo_mem, DATA_START));
    assert!(!is_vo_bit_set(&vo_mem, DATA_START + 0x10));
    assert!(is_vo_bit_set(&vo_mem, DATA_START + 0x18));
    assert!(is_vo_bit_set(&vo_mem, DATA_START + 0x40));
    assert!(is_vo_bit_set(&vo_mem, DATA_START + 0x88));
    // Outside the range nothing changes.
    assert!(!is_vo_bit_set(&vo_mem, DATA_START + 0x100));
    assert!(is_vo_bit_set(&vo_mem, DATA_START + 0x200));
}

#[test]
fn forwarding_and_sweeping_update_vo_bits() {
    use_forwarding_and_sweeping();
}

fn mark_spec() -> SideMetadataSpec {
    SideMetadataSpec {
        name: "MARK",
        is_global: false,
        offset: SideMetadataOffset::addr(0x8000),
        log_num_of_bits: 0,
        log_bytes_in_region: 3,
    }
}

fn use_forwarding_and_sweeping() {
    let mark = mark_spec();
    let mark_bit = VMLocalMarkBitSpec(MetadataSpec::OnSide(mark));
    let mut objects = ObjectMemory {
        heap: MemoryRegion::new_zeroed(DATA_START, 64),
        side: MemoryRegion::new_zeroed(0x8000 + DATA_START / 64, 4096),
    };
    let mut vo_mem = side_table();
    let copy = DATA_START + 0x300;
    // Copying mark bits: the copy is marked too.
    on_object_forwarded(true, &mut vo_mem, &mark_bit, &mut objects, copy);
    assert!(is_vo_bit_set(&vo_mem, copy));
    assert!(mark_bit.is_marked(&objects, copy));
    // Rebuilding the VO bits: only the VO bit is set.
    let other = DATA_START + 0x308;
    on_object_forwarded(false, &mut vo_mem, &mark_bit, &mut objects, other);
    assert!(is_vo_bit_set(&vo_mem, other));
    assert!(!mark_bit.is_marked(&objects, other));

    // A swept region with live objects gets its VO bits from the mark bits.
    set_vo_bit(&mut vo_mem, DATA_START + 0x10);
    on_region_swept(true, &mut vo_mem, DATA_START, 0x400, true, &MetadataSpec::OnSide(mark), &objects.side);
    assert!(!is_vo_bit_set(&vo_mem, DATA_START + 0x10));
    assert!(is_vo_bit_set(&vo_mem, copy));
    assert!(!is_vo_bit_set(&vo_mem, other));
    // An empty one is cleared.
    on_region_swept(true, &mut vo_mem, DATA_START, 0x400, false, &MetadataSpec::OnSide(mark), &objects.side);
    assert!(!is_vo_bit_set(&vo_mem, copy));
    // With the other strategy nothing changes.
    set_vo_bit(&mut vo_mem, copy);
    on_region_swept(false, &mut vo_mem, DATA_START, 0x400, false, &MetadataSpec::OnSide(mark), &objects.side);
    assert!(is_vo_bit_set(&vo_mem, copy));
}
