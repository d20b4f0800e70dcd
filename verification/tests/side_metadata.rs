use mmtk::constants::{BYTES_IN_PAGE, GLOBAL_SIDE_METADATA_BASE_ADDRESS, LOCAL_SIDE_METADATA_BASE_ADDRESS};
use mmtk::memory::MemoryRegion;
use mmtk::metadata::side_metadata::context::{MapProgress, MetadataMapRequest, SideMetadataContext};
use mmtk::metadata::side_metadata::helpers::{address_to_meta_address, meta_byte_lshift, meta_byte_mask};
use mmtk::metadata::side_metadata::sanity::SideMetadataSanity;
use mmtk::metadata::side_metadata::spec::{SideMetadataOffset, SideMetadataSpec};

/// The start of the heap in the default 64-bit layout.
const HEAP_START: u64 = 0x0000_0200_0000_0000;
/// The number of bytes in a chunk.
const BYTES_IN_CHUNK: u64 = 1 << 22;

/// Map the memory that the context asks for: one region that covers all the requests.
fn map_for(metadata: &SideMetadataContext, start: u64, size: u64) -> MemoryRegion {
    let requests = metadata.try_map_metadata_space(start, size);
    assert!(!requests.is_empty());
    let lo = requests.iter().map(|r| r.start).min().unwrap();
    let hi = requests.iter().map(|r| r.start + r.bytes).max().unwrap();
    MemoryRegion::new_zeroed(lo, (hi - lo) as usize)
}

/// The metadata of `data_addr` under `spec` lies in memory that a mapping request covers.
fn assert_metadata_mapped(metadata: &SideMetadataContext, start: u64, size: u64, spec: &SideMetadataSpec, data_addr: u64) {
    let meta = address_to_meta_address(spec, data_addr);
    let requests = metadata.try_map_metadata_space(start, size);
    assert!(
        requests.iter().any(|r| r.start <= meta && meta < r.start + r.bytes),
        "metadata address {meta:#x} of {data_addr:#x} is not mapped"
    );
}

#[test]
fn test_side_metadata_address_to_meta_address() {
    let mut gspec = SideMetadataSpec {
        name: "gspec",
        is_global: true,
        offset: SideMetadataOffset::addr(GLOBAL_SIDE_METADATA_BASE_ADDRESS),
        log_num_of_bits: 0,
        log_bytes_in_region: 0,
    };
    let mut lspec = SideMetadataSpec {
        name: "lspec",
        is_global: false,
        offset: SideMetadataOffset::addr(LOCAL_SIDE_METADATA_BASE_ADDRESS),
        log_num_of_bits: 0,
        log_bytes_in_region: 0,
    };


    assert_eq!(
        address_to_meta_address(&gspec, 0),
        GLOBAL_SIDE_METADATA_BASE_ADDRESS
    );
    assert_eq!(
        address_to_meta_address(&lspec, 0),
        LOCAL_SIDE_METADATA_BASE_ADDRESS
    );

    assert_eq!(
        address_to_meta_address(&gspec, 7),
        GLOBAL_SIDE_METADATA_BASE_ADDRESS
    );
    assert_eq!(
        address_to_meta_address(&lspec, 7),
        LOCAL_SIDE_METADATA_BASE_ADDRESS
    );

    assert_eq!(
        address_to_meta_address(&gspec, 27),
        GLOBAL_SIDE_METADATA_BASE_ADDRESS + 3
    );
    assert_eq!(
        address_to_meta_address(&lspec, 129),
        LOCAL_SIDE_METADATA_BASE_ADDRESS + 16
    );

    gspec.log_bytes_in_region = 2;
    lspec.log_bytes_in_region = 1;

    assert_eq!(
        address_to_meta_address(&gspec, 0),
        GLOBAL_SIDE_METADATA_BASE_ADDRESS
    );
    assert_eq!(
        address_to_meta_address(&lspec, 0),
        LOCAL_SIDE_METADATA_BASE_ADDRESS
    );

    assert_eq!(
        address_to_meta_address(&gspec, 32),
        GLOBAL_SIDE_METADATA_BASE_ADDRESS + 1
    );
    assert_eq!(
        address_to_meta_address(&lspec, 32),
        LOCAL_SIDE_METADATA_BASE_ADDRESS + 2
    );

    assert_eq!(
        address_to_meta_address(&gspec, 316),
        GLOBAL_SIDE_METADATA_BASE_ADDRESS + 9
    );
    assert_eq!(
        address_to_meta_address(&lspec, 316),
        LOCAL_SIDE_METADATA_BASE_ADDRESS + 19
    );

    gspec.log_num_of_bits = 1;
    lspec.log_num_of_bits = 3;

    assert_eq!(
        address_to_meta_address(&gspec, 0),
        GLOBAL_SIDE_METADATA_BASE_ADDRESS
    );
    assert_eq!(
        address_to_meta_address(&lspec, 0),
        LOCAL_SIDE_METADATA_BASE_ADDRESS
    );

    assert_eq!(
        address_to_meta_address(&gspec, 32),
        GLOBAL_SIDE_METADATA_BASE_ADDRESS + 2
    );
    assert_eq!(
        address_to_meta_address(&lspec, 32),
        LOCAL_SIDE_METADATA_BASE_ADDRESS + 16
    );

    assert_eq!(
        address_to_meta_address(&gspec, 316),
        GLOBAL_SIDE_METADATA_BASE_ADDRESS + 19
    );
    assert_eq!(
        address_to_meta_address(&lspec, 318),
        LOCAL_SIDE_METADATA_BASE_ADDRESS + 159
    );
}

#[test]
fn test_side_metadata_meta_byte_mask() {
    let mut spec = SideMetadataSpec {
        name: "test_spec",
        is_global: true,
        offset: SideMetadataOffset::addr(GLOBAL_SIDE_METADATA_BASE_ADDRESS),
        log_num_of_bits: 0,
        log_bytes_in_region: 0,
    };

    assert_eq!(meta_byte_mask(&spec), 1);

    spec.log_num_of_bits = 1;
    assert_eq!(meta_byte_mask(&spec), 3);
    spec.log_num_of_bits = 2;
    assert_eq!(meta_byte_mask(&spec), 15);
    spec.log_num_of_bits = 3;
    assert_eq!(meta_byte_mask(&spec), 255);
}

#[test]
fn test_side_metadata_meta_byte_lshift() {
    let mut spec = SideMetadataSpec {
        name: "test_spec",
        is_global: true,
        offset: SideMetadataOffset::addr(GLOBAL_SIDE_METADATA_BASE_ADDRESS),
        log_num_of_bits: 0,
        log_bytes_in_region: 0,
    };

    assert_eq!(
        meta_byte_lshift(&spec, 0),
        0
    );
    assert_eq!(
        meta_byte_lshift(&spec, 5),
        5
    );
    assert_eq!(
        meta_byte_lshift(&spec, 15),
        7
    );

    spec.log_num_of_bits = 2;

    assert_eq!(
        meta_byte_lshift(&spec, 0),
        0
    );
    assert_eq!(
        meta_byte_lshift(&spec, 5),
        4
    );
    assert_eq!(
        meta_byte_lshift(&spec, 15),
        4
    );
    assert_eq!(
        meta_byte_lshift(&spec, 0x10010),
        0
    );
}


#[test]
fn test_side_metadata_try_mmap_metadata() {
    let heap_start = HEAP_START;
    let mut gspec = SideMetadataSpec {
        name: "gspec",
        is_global: true,
        offset: SideMetadataOffset::addr(GLOBAL_SIDE_METADATA_BASE_ADDRESS),
        log_num_of_bits: 1,
        log_bytes_in_region: 1,
    };
    let mut lspec = SideMetadataSpec {
        name: "lspec",
        is_global: false,
        offset: SideMetadataOffset::addr(LOCAL_SIDE_METADATA_BASE_ADDRESS),
        log_num_of_bits: 1,
        log_bytes_in_region: 1,
    };

    let metadata = SideMetadataContext { global: vec![gspec], local: vec![lspec] };

    let mut metadata_sanity = SideMetadataSanity::new();
    assert!(metadata_sanity.verify_metadata_context("NoPolicy", &metadata).is_ok());

    assert!(!metadata.try_map_metadata_space(heap_start, BYTES_IN_PAGE).is_empty());

    assert_metadata_mapped(&metadata, heap_start, BYTES_IN_PAGE, &gspec, heap_start);
    assert_metadata_mapped(&metadata, heap_start, BYTES_IN_PAGE, &lspec, heap_start);
    assert_metadata_mapped(&metadata, heap_start, BYTES_IN_PAGE, &gspec, heap_start + BYTES_IN_PAGE - 1);
    assert_metadata_mapped(&metadata, heap_start, BYTES_IN_PAGE, &lspec, heap_start + BYTES_IN_PAGE - 1);

    gspec.log_bytes_in_region = 4;
    gspec.log_num_of_bits = 4;
    lspec.log_bytes_in_region = 4;
    lspec.log_num_of_bits = 4;

    metadata_sanity.reset();

    let metadata = SideMetadataContext { global: vec![gspec], local: vec![lspec] };

    assert!(metadata_sanity.verify_metadata_context("NoPolicy", &metadata).is_ok());
    metadata_sanity.reset();

    assert!(!metadata.try_map_metadata_space(heap_start + BYTES_IN_CHUNK, BYTES_IN_CHUNK).is_empty());

    let (s, n) = (heap_start + BYTES_IN_CHUNK, BYTES_IN_CHUNK);
    assert_metadata_mapped(&metadata, s, n, &gspec, heap_start + BYTES_IN_CHUNK);
    assert_metadata_mapped(&metadata, s, n, &lspec, heap_start + BYTES_IN_CHUNK);
    assert_metadata_mapped(&metadata, s, n, &gspec, heap_start + BYTES_IN_CHUNK * 2 - 8);
    assert_metadata_mapped(&metadata, s, n, &lspec, heap_start + BYTES_IN_CHUNK * 2 - 16);
}

fn bzero_setup() -> (SideMetadataSpec, u64, SideMetadataContext) {
    // 1 bit per 8 bytes
    let spec = SideMetadataSpec {
        name: "test spec",
        is_global: true,
        offset: SideMetadataOffset::addr(GLOBAL_SIDE_METADATA_BASE_ADDRESS),
        log_num_of_bits: 0,
        log_bytes_in_region: 3,
    };
    let region_size: u64 = 1 << spec.log_bytes_in_region;
    let metadata = SideMetadataContext { global: vec![spec], local: vec![] };
    let mut metadata_sanity = SideMetadataSanity::new();
    assert!(metadata_sanity.verify_metadata_context("NoPolicy", &metadata).is_ok());
    (spec, region_size, metadata)
}

#[test]
fn test_side_metadata_bzero_by_bytes() {
    let data_addr = HEAP_START;
    let (spec, region_size, metadata) = bzero_setup();
    let mut mem = map_for(&metadata, data_addr, BYTES_IN_PAGE);

    // First 9 regions
    let regions = (0..9).map(|i| data_addr + (region_size * i)).collect::<Vec<u64>>();
    // Set metadata for the regions
    regions.iter().for_each(|addr| spec.store(&mut mem, *addr, 1));
    regions.iter().for_each(|addr| assert!(spec.load(&mem, *addr) == 1));

    // bulk zero the 8 regions (1 bit for each, in total 1 byte)
    spec.bzero_metadata(&mut mem, regions[0], region_size * 8);
    // Check if the first 8 regions are set to 0
    regions[0..8].iter().for_each(|addr| assert!(spec.load(&mem, *addr) == 0));
    // Check if the 9th region is still 1
    assert!(spec.load(&mem, regions[8]) == 1);
}

#[test]
fn test_side_metadata_bzero_by_fraction_of_bytes() {
    let data_addr = HEAP_START;
    let (spec, region_size, metadata) = bzero_setup();
    let mut mem = map_for(&metadata, data_addr, BYTES_IN_PAGE);

    // First 9 regions
    let regions = (0..9).map(|i| data_addr + (region_size * i)).collect::<Vec<u64>>();
    // Set metadata for the regions
    regions.iter().for_each(|addr| spec.store(&mut mem, *addr, 1));
    regions.iter().for_each(|addr| assert!(spec.load(&mem, *addr) == 1));

    // bulk zero the first 4 regions (1 bit for each, in total 4 bits)
    spec.bzero_metadata(&mut mem, regions[0], region_size * 4);
    // Check if the first 4 regions are set to 0
    regions[0..4].iter().for_each(|addr| assert!(spec.load(&mem, *addr) == 0));
    // Check if the rest regions is still 1
    regions[4..9].iter().for_each(|addr| assert!(spec.load(&mem, *addr) == 1));
}

#[test]
fn sanity_bzero_of_unaligned_range_clears_its_region() {
    let (spec, _region_size, metadata) = bzero_setup();
    let mut sanity = SideMetadataSanity::new();
    assert!(sanity.verify_metadata_context("NoPolicy", &metadata).is_ok());
    assert!(sanity.verify_store(&spec, HEAP_START, 1, 3).is_ok());
    assert!(sanity.verify_load(&spec, HEAP_START, 1).is_ok());
    // Half of the first region: its metadata bit is cleared all the same.
    assert!(sanity.verify_bzero(&spec, HEAP_START + 4, 4).is_ok());
    assert!(sanity.verify_load(&spec, HEAP_START, 0).is_ok());
    assert!(sanity.verify_load(&spec, HEAP_START, 1).is_err());
}

#[test]
fn map_progress_stops_at_the_first_failure() {
    let requests = vec![
        MetadataMapRequest { start: 0x1000, bytes: 0x1000, no_reserve: false },
        MetadataMapRequest { start: 0x4000, bytes: 0x1000, no_reserve: false },
        MetadataMapRequest { start: 0x8000, bytes: 0x1000, no_reserve: true },
    ];
    let mut p = MapProgress::new();
    assert_eq!(p.finished(&requests), None);
    assert_eq!(p.next_request(&requests), Some(requests[0]));
    p.record(&requests, true);
    assert_eq!(p.next_request(&requests), Some(requests[1]));
    p.record(&requests, false);
    assert_eq!(p.next_request(&requests), None);
    assert_eq!(p.finished(&requests), Some(false));
    assert_eq!(p.mapped, 1);

    let mut q = MapProgress::new();
    while q.next_request(&requests).is_some() {
        q.record(&requests, true);
    }
    assert_eq!(q.finished(&requests), Some(true));
    assert_eq!(q.mapped, 3);
}
