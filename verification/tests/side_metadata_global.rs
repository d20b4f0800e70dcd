use mmtk::metadata::side_metadata::layout::{
    global_side_metadata_bytes, last_local_side_metadata_spec, local_side_metadata_base_address,
    side_metadata_reserved_bytes, side_metadata_reserved_pages, total_side_metadata_bytes,
};
use mmtk::metadata::side_metadata::context::SideMetadataContext;
use mmtk::metadata::side_metadata::spec::{SideMetadataOffset, SideMetadataSpec};

// offset is not used in these tests.
fn zero_offset() -> SideMetadataOffset {
    SideMetadataOffset::rel(0)
}

#[test]
fn calculate_reserved_pages_one_spec() {
    // 1 bit per 8 bytes - 1:64
    let spec = SideMetadataSpec {
        name: "test_spec",
        is_global: true,
        offset: zero_offset(),
        log_num_of_bits: 0,
        log_bytes_in_region: 3,
    };
    let side_metadata = SideMetadataContext { global: vec![spec], local: vec![] };
    assert_eq!(side_metadata.calculate_reserved_pages(0), 0);
    assert_eq!(side_metadata.calculate_reserved_pages(63), 1);
    assert_eq!(side_metadata.calculate_reserved_pages(64), 1);
    assert_eq!(side_metadata.calculate_reserved_pages(65), 2);
    assert_eq!(side_metadata.calculate_reserved_pages(1024), 16);
}

#[test]
fn calculate_reserved_pages_multi_specs() {
    // 1 bit per 8 bytes - 1:64
    let gspec = SideMetadataSpec {
        name: "gspec",
        is_global: true,
        offset: zero_offset(),
        log_num_of_bits: 0,
        log_bytes_in_region: 3,
    };
    // 2 bits per page - 2 / (4k * 8) = 1:16k
    let lspec = SideMetadataSpec {
        name: "lspec",
        is_global: false,
        offset: zero_offset(),
        log_num_of_bits: 1,
        log_bytes_in_region: 12,
    };
    let side_metadata = SideMetadataContext { global: vec![gspec], local: vec![lspec] };
    assert_eq!(side_metadata.calculate_reserved_pages(1024), 16 + 1);
}

fn max_value(log_bits: usize) -> u64 {
    (0..(1 << log_bits)).fold(0, |accum, x| accum + (1 << x))
}

#[test]
fn test_max_value() {
    assert_eq!(max_value(0), 1);
    assert_eq!(max_value(1), 0b11);
    assert_eq!(max_value(2), 0b1111);
    assert_eq!(max_value(3), 255);
    assert_eq!(max_value(4), 65535);
}

#[test]
fn side_metadata_reservation_covers_all_specs() {
    let last = last_local_side_metadata_spec();
    assert_eq!(last.upper_bound_offset().addr_value(), 0x4aa_8600_0000);
    assert_eq!(total_side_metadata_bytes(0), 0x4aa_8600_0000);
    assert_eq!(total_side_metadata_bytes(0x500_0000_0000), 0x500_0000_0000);
    assert_eq!(global_side_metadata_bytes(0), 0x200_0400_0000);
    assert_eq!(global_side_metadata_bytes(0x300_0000_0000), 0x300_0000_0000);
    assert_eq!(local_side_metadata_base_address(0x1000_0000_0000, 0), 0x1200_0400_0000);
    let granularity = 1u64 << 22;
    assert_eq!(side_metadata_reserved_bytes(0, granularity), 0x4aa_8600_0000);
    assert_eq!(side_metadata_reserved_bytes(0x500_0000_0001, granularity), 0x500_0040_0000);
    assert_eq!(side_metadata_reserved_pages(0, granularity), 0x4aa_8600_0000 / 4096);
}
