use mmtk::constants::{BYTES_IN_PAGE, GLOBAL_SIDE_METADATA_BASE_ADDRESS, LOCAL_SIDE_METADATA_BASE_ADDRESS};
use mmtk::memory::MemoryRegion;
use mmtk::metadata::side_metadata::context::SideMetadataContext;
use mmtk::metadata::side_metadata::sanity::SideMetadataSanity;
use mmtk::metadata::side_metadata::spec::{SideMetadataOffset, SideMetadataSpec};

/// The start of the heap in the default 64-bit layout.
const HEAP_START: u64 = 0x0000_0200_0000_0000;
/// The number of bytes in a chunk.
const BYTES_IN_CHUNK: u64 = 1 << 22;
/// log2 of the number of bytes in a word.
const LOG_BYTES_IN_WORD: usize = 3;

/// Map the metadata memory of one spec for `[start, start + size)`.
fn map_spec(spec: &SideMetadataSpec, start: u64, size: u64) -> MemoryRegion {
    let metadata = SideMetadataContext { global: vec![*spec], local: vec![] };
    map_for(&metadata, start, size)
}

/// Map the memory that the context asks for: one region that covers all the requests.
fn map_for(metadata: &SideMetadataContext, start: u64, size: u64) -> MemoryRegion {
    let requests = metadata.try_map_metadata_space(start, size);
    assert!(!requests.is_empty());
    let lo = requests.iter().map(|r| r.start).min().unwrap();
    let hi = requests.iter().map(|r| r.start + r.bytes).max().unwrap();
    MemoryRegion::new_zeroed(lo, (hi - lo) as usize)
}

#[test]
fn test_side_metadata_atomic_fetch_add_sub_ge8bits() {
    let data_addr = HEAP_START;
    let metadata_1_spec = SideMetadataSpec {
        name: "metadata_1_spec",
        is_global: true,
        offset: SideMetadataOffset::addr(GLOBAL_SIDE_METADATA_BASE_ADDRESS),
        log_num_of_bits: 4,
        log_bytes_in_region: 6,
    };
    let metadata_2_spec = SideMetadataSpec {
        name: "metadata_2_spec",
        is_global: true,
        offset: SideMetadataOffset::layout_after(&metadata_1_spec),
        log_num_of_bits: 3,
        log_bytes_in_region: 7,
    };
    let metadata = SideMetadataContext { global: vec![metadata_1_spec, metadata_2_spec], local: vec![] };
    let mut metadata_sanity = SideMetadataSanity::new();
    assert!(metadata_sanity.verify_metadata_context("NoPolicy", &metadata).is_ok());
    // The two specs lie far apart: each is mapped on its own.
    let mut mem1 = map_spec(&metadata_1_spec, data_addr, BYTES_IN_PAGE);
    let mut mem2 = map_spec(&metadata_2_spec, data_addr, BYTES_IN_PAGE);

    let zero = metadata_1_spec.fetch_add_atomic(&mut mem1, data_addr, 5);
    assert_eq!(zero, 0);
    let five = metadata_1_spec.load_atomic(&mem1, data_addr);
    assert_eq!(five, 5);
    let zero = metadata_2_spec.fetch_add_atomic(&mut mem2, data_addr, 5);
    assert_eq!(zero, 0);
    let five = metadata_2_spec.load_atomic(&mem2, data_addr);
    assert_eq!(five, 5);
    let another_five = metadata_1_spec.fetch_sub_atomic(&mut mem1, data_addr, 2);
    assert_eq!(another_five, 5);
    let three = metadata_1_spec.load_atomic(&mem1, data_addr);
    assert_eq!(three, 3);
    let another_five = metadata_2_spec.fetch_sub_atomic(&mut mem2, data_addr, 2);
    assert_eq!(another_five, 5);
    let three = metadata_2_spec.load_atomic(&mem2, data_addr);
    assert_eq!(three, 3);

    assert!(!metadata.ensure_unmap_metadata_space(data_addr, BYTES_IN_PAGE).is_empty());
    metadata_sanity.reset();
}

#[test]
fn test_side_metadata_atomic_fetch_add_sub_2bits() {
    let data_addr = HEAP_START + (BYTES_IN_CHUNK << 1) * 2;
    let metadata_1_spec = SideMetadataSpec {
        name: "metadata_1_spec",
        is_global: true,
        offset: SideMetadataOffset::addr(GLOBAL_SIDE_METADATA_BASE_ADDRESS),
        log_num_of_bits: 1,
        log_bytes_in_region: LOG_BYTES_IN_WORD,
    };
    let metadata = SideMetadataContext { global: vec![metadata_1_spec], local: vec![] };
    let mut metadata_sanity = SideMetadataSanity::new();
    assert!(metadata_sanity.verify_metadata_context("NoPolicy", &metadata).is_ok());
    let mut mem = map_for(&metadata, data_addr, BYTES_IN_PAGE);

    let zero = metadata_1_spec.fetch_add_atomic(&mut mem, data_addr, 2);
    assert_eq!(zero, 0);
    let two = metadata_1_spec.load_atomic(&mem, data_addr);
    assert_eq!(two, 2);
    let another_two = metadata_1_spec.fetch_sub_atomic(&mut mem, data_addr, 1);
    assert_eq!(another_two, 2);
    let one = metadata_1_spec.load_atomic(&mem, data_addr);
    assert_eq!(one, 1);
    metadata_1_spec.store_atomic(&mut mem, data_addr, 0);
    assert_eq!(metadata_1_spec.load_atomic(&mem, data_addr), 0);

    assert!(!metadata.ensure_unmap_metadata_space(data_addr, BYTES_IN_PAGE).is_empty());
    metadata_sanity.reset();
}

#[test]
fn test_side_metadata_atomic_fetch_and_or_2bits() {
    let data_addr = HEAP_START + (BYTES_IN_CHUNK << 1);
    let metadata_1_spec = SideMetadataSpec {
        name: "metadata_1_spec",
        is_global: true,
        offset: SideMetadataOffset::addr(GLOBAL_SIDE_METADATA_BASE_ADDRESS),
        log_num_of_bits: 1,
        log_bytes_in_region: LOG_BYTES_IN_WORD,
    };
    let metadata = SideMetadataContext { global: vec![metadata_1_spec], local: vec![] };
    let mut metadata_sanity = SideMetadataSanity::new();
    assert!(metadata_sanity.verify_metadata_context("NoPolicy", &metadata).is_ok());
    let mut mem = map_for(&metadata, data_addr, BYTES_IN_PAGE);

    let zero = metadata_1_spec.fetch_or_atomic(&mut mem, data_addr, 0b11);
    assert_eq!(zero, 0);
    let value_11 = metadata_1_spec.load_atomic(&mem, data_addr);
    assert_eq!(value_11, 0b11);
    let another_value_11 = metadata_1_spec.fetch_and_atomic(&mut mem, data_addr, 0b01);
    assert_eq!(another_value_11, 0b11);
    let value_01 = metadata_1_spec.load_atomic(&mem, data_addr);
    assert_eq!(value_01, 0b01);
    metadata_1_spec.store_atomic(&mut mem, data_addr, 0);
    assert_eq!(metadata_1_spec.load_atomic(&mem, data_addr), 0);

    assert!(!metadata.ensure_unmap_metadata_space(data_addr, BYTES_IN_PAGE).is_empty());
    metadata_sanity.reset();
}

#[test]
fn test_side_metadata_bzero_metadata() {
    let data_addr = HEAP_START + (BYTES_IN_CHUNK << 2);
    let metadata_1_spec = SideMetadataSpec {
        name: "metadata_1_spec",
        is_global: false,
        offset: SideMetadataOffset::addr(LOCAL_SIDE_METADATA_BASE_ADDRESS),
        log_num_of_bits: 4,
        log_bytes_in_region: 9,
    };
    let metadata_2_spec = SideMetadataSpec {
        name: "metadata_2_spec",
        is_global: false,
        offset: SideMetadataOffset::layout_after(&metadata_1_spec),
        log_num_of_bits: 3,
        log_bytes_in_region: 7,
    };
    let metadata = SideMetadataContext { global: vec![], local: vec![metadata_1_spec, metadata_2_spec] };
    let mut metadata_sanity = SideMetadataSanity::new();
    assert!(metadata_sanity.verify_metadata_context("NoPolicy", &metadata).is_ok());
    // The two specs lie far apart: each is mapped on its own.
    let mut mem1 = map_spec(&metadata_1_spec, data_addr, BYTES_IN_PAGE);
    let mut mem2 = map_spec(&metadata_2_spec, data_addr, BYTES_IN_PAGE);

    let zero = metadata_1_spec.fetch_add_atomic(&mut mem1, data_addr, 5);
    assert_eq!(zero, 0);
    let five = metadata_1_spec.load_atomic(&mem1, data_addr);
    assert_eq!(five, 5);
    let zero = metadata_2_spec.fetch_add_atomic(&mut mem2, data_addr, 5);
    assert_eq!(zero, 0);
    let five = metadata_2_spec.load_atomic(&mem2, data_addr);
    assert_eq!(five, 5);

    metadata_2_spec.bzero_metadata(&mut mem2, data_addr, BYTES_IN_PAGE);
    let five = metadata_1_spec.load_atomic(&mem1, data_addr);
    assert_eq!(five, 5);
    let five = metadata_2_spec.load_atomic(&mem2, data_addr);
    assert_eq!(five, 0);

    metadata_1_spec.bzero_metadata(&mut mem1, data_addr, BYTES_IN_PAGE);
    let five = metadata_1_spec.load_atomic(&mem1, data_addr);
    assert_eq!(five, 0);
    let five = metadata_2_spec.load_atomic(&mem2, data_addr);
    assert_eq!(five, 0);

    assert!(!metadata.ensure_unmap_metadata_space(data_addr, BYTES_IN_PAGE).is_empty());
    metadata_sanity.reset();
}

#[test]
fn test_side_metadata_zero_meta_bits() {
    let size: u64 = 4;
    let start: u64 = 0x1000;
    let end = start + size;
    let mut mem = MemoryRegion::new_zeroed(start, size as usize);

    mem.store_le(start, 4, u32::MAX as u64);
    // zero the word
    SideMetadataSpec::zero_meta_bits(&mut mem, start, 0, end, 0);
    assert_eq!(mem.load_le(start, 4), 0);

    mem.store_le(start, 4, u32::MAX as u64);
    // zero first 2 bits
    SideMetadataSpec::zero_meta_bits(&mut mem, start, 0, start, 2);
    assert_eq!(mem.load_le(start, 4), 0xFFFF_FFFC); // ....1100

    mem.store_le(start, 4, u32::MAX as u64);
    // zero last 2 bits
    SideMetadataSpec::zero_meta_bits(&mut mem, end - 1, 6, end, 0);
    assert_eq!(mem.load_le(start, 4), 0x3FFF_FFFF); // 0011....

    mem.store_le(start, 4, u32::MAX as u64);
    // zero everything except first 2 bits and last 2 bits
    SideMetadataSpec::zero_meta_bits(&mut mem, start, 2, end - 1, 6);
    assert_eq!(mem.load_le(start, 4), 0xC000_0003); // 1100....0011
}

fn check_copy_region(
    metadata_1_spec: &SideMetadataSpec,
    mem1: &MemoryRegion,
    metadata_2_spec: &SideMetadataSpec,
    mem2: &mut MemoryRegion,
    data_addr: u64,
    num_regions: u64,
    bytes_per_region: u64,
    begin: u64,
    end: u64,
) {
    metadata_2_spec.bcopy_metadata_contiguous(
        mem2,
        data_addr + begin * bytes_per_region,
        (end - begin) * bytes_per_region,
        metadata_1_spec,
        mem1,
    );
    for i in 0..num_regions {
        let bit = metadata_2_spec.load_atomic(mem2, data_addr + i * bytes_per_region);
        let expected = if begin <= i && i < end { i % 2 } else { 0 };
        assert_eq!(bit, expected, "Expected: {expected}, actual: {bit}, i: {i}, begin: {begin}, end: {end}");
    }
    metadata_2_spec.bzero_metadata(mem2, data_addr, num_regions * bytes_per_region);
}

#[test]
fn test_side_metadata_bcopy_metadata_contiguous() {
    let data_addr = HEAP_START;
    let log_num_of_bits = 0;
    let log_bytes_in_region = 3;
    let num_regions: u64 = 0x400; // 1024
    let bytes_per_region: u64 = 1 << log_bytes_in_region;
    let total_size = num_regions * bytes_per_region; // 8192

    let metadata_1_spec = SideMetadataSpec {
        name: "metadata_1_spec",
        is_global: true,
        offset: SideMetadataOffset::addr(GLOBAL_SIDE_METADATA_BASE_ADDRESS),
        log_num_of_bits,
        log_bytes_in_region,
    };
    let metadata_2_spec = SideMetadataSpec {
        name: "metadata_2_spec",
        is_global: true,
        offset: SideMetadataOffset::layout_after(&metadata_1_spec),
        log_num_of_bits,
        log_bytes_in_region,
    };
    let metadata = SideMetadataContext { global: vec![metadata_1_spec, metadata_2_spec], local: vec![] };
    let mut metadata_sanity = SideMetadataSanity::new();
    assert!(metadata_sanity.verify_metadata_context("NoPolicy", &metadata).is_ok());
    // The two specs lie far apart: each is mapped on its own.
    let mut mem1 = map_spec(&metadata_1_spec, data_addr, total_size);
    let mut mem2 = map_spec(&metadata_2_spec, data_addr, total_size);

    metadata_1_spec.bzero_metadata(&mut mem1, data_addr, total_size);
    metadata_2_spec.bzero_metadata(&mut mem2, data_addr, total_size);
    for i in 0..num_regions {
        metadata_1_spec.store_atomic(&mut mem1, data_addr + i * bytes_per_region, i % 2);
    }

    let (m1, s1, s2) = (&mem1, &metadata_1_spec, &metadata_2_spec);
    // Whole bytes
    check_copy_region(s1, m1, s2, &mut mem2, data_addr, num_regions, bytes_per_region, 0x100, 0x200);
    // End unaligned
    check_copy_region(s1, m1, s2, &mut mem2, data_addr, num_regions, bytes_per_region, 0x18, 0xcc);
    // Start unaligned
    check_copy_region(s1, m1, s2, &mut mem2, data_addr, num_regions, bytes_per_region, 0x263, 0x3f0);
    // Start and end unaligned
    check_copy_region(s1, m1, s2, &mut mem2, data_addr, num_regions, bytes_per_region, 0x82, 0x1fd);

    metadata_1_spec.bzero_metadata(&mut mem1, data_addr, total_size);
    metadata_2_spec.bzero_metadata(&mut mem2, data_addr, total_size);
    metadata_sanity.reset();
}
