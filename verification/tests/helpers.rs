use mmtk::constants::GLOBAL_SIDE_METADATA_BASE_ADDRESS;
use mmtk::metadata::side_metadata::helpers::{align_metadata_address, find_last_non_zero_bit_u8};
use mmtk::metadata::side_metadata::spec::{SideMetadataOffset, SideMetadataSpec};

#[test]
fn test_find_last_non_zero_bit_in_u8() {
    let bit = find_last_non_zero_bit_u8(0b100101, 0, 1);
    assert_eq!(bit, Some(0));

    let bit = find_last_non_zero_bit_u8(0b100101, 0, 3);
    assert_eq!(bit, Some(2));

    let bit = find_last_non_zero_bit_u8(0b100101, 0, 8);
    assert_eq!(bit, Some(5));

    let bit = find_last_non_zero_bit_u8(0b0, 0, 1);
    assert_eq!(bit, None);
}

#[test]
fn test_align_metadata_address() {
    let create_spec = |log_num_of_bits: usize| SideMetadataSpec {
        name: "AlignMetadataBitTestSpec",
        is_global: true,
        offset: SideMetadataOffset::addr(GLOBAL_SIDE_METADATA_BASE_ADDRESS),
        log_num_of_bits,
        log_bytes_in_region: 3,
    };

    const ADDR_1000: u64 = 0x1000;
    const ADDR_1001: u64 = 0x1001;
    const ADDR_1002: u64 = 0x1002;
    const ADDR_1003: u64 = 0x1003;
    const ADDR_1004: u64 = 0x1004;
    const ADDR_1005: u64 = 0x1005;
    const ADDR_1006: u64 = 0x1006;
    const ADDR_1007: u64 = 0x1007;
    const ADDR_1008: u64 = 0x1008;
    const ADDR_1009: u64 = 0x1009;

    let metadata_2bits = create_spec(1);
    assert_eq!(
        align_metadata_address(&metadata_2bits, ADDR_1000, 0),
        (ADDR_1000, 0)
    );
    assert_eq!(
        align_metadata_address(&metadata_2bits, ADDR_1000, 1),
        (ADDR_1000, 0)
    );
    assert_eq!(
        align_metadata_address(&metadata_2bits, ADDR_1000, 2),
        (ADDR_1000, 2)
    );
    assert_eq!(
        align_metadata_address(&metadata_2bits, ADDR_1000, 3),
        (ADDR_1000, 2)
    );
    assert_eq!(
        align_metadata_address(&metadata_2bits, ADDR_1000, 4),
        (ADDR_1000, 4)
    );
    assert_eq!(
        align_metadata_address(&metadata_2bits, ADDR_1000, 5),
        (ADDR_1000, 4)
    );
    assert_eq!(
        align_metadata_address(&metadata_2bits, ADDR_1000, 6),
        (ADDR_1000, 6)
    );
    assert_eq!(
        align_metadata_address(&metadata_2bits, ADDR_1000, 7),
        (ADDR_1000, 6)
    );

    let metadata_4bits = create_spec(2);
    assert_eq!(
        align_metadata_address(&metadata_4bits, ADDR_1000, 0),
        (ADDR_1000, 0)
    );
    assert_eq!(
        align_metadata_address(&metadata_4bits, ADDR_1000, 1),
        (ADDR_1000, 0)
    );
    assert_eq!(
        align_metadata_address(&metadata_4bits, ADDR_1000, 2),
        (ADDR_1000, 0)
    );
    assert_eq!(
        align_metadata_address(&metadata_4bits, ADDR_1000, 3),
        (ADDR_1000, 0)
    );
    assert_eq!(
        align_metadata_address(&metadata_4bits, ADDR_1000, 4),
        (ADDR_1000, 4)
    );
    assert_eq!(
        align_metadata_address(&metadata_4bits, ADDR_1000, 5),
        (ADDR_1000, 4)
    );
    assert_eq!(
        align_metadata_address(&metadata_4bits, ADDR_1000, 6),
        (ADDR_1000, 4)
    );
    assert_eq!(
        align_metadata_address(&metadata_4bits, ADDR_1000, 7),
        (ADDR_1000, 4)
    );

    let metadata_8bits = create_spec(3);
    assert_eq!(
        align_metadata_address(&metadata_8bits, ADDR_1000, 0),
        (ADDR_1000, 0)
    );
    assert_eq!(
        align_metadata_address(&metadata_8bits, ADDR_1000, 1),
        (ADDR_1000, 0)
    );
    assert_eq!(
        align_metadata_address(&metadata_8bits, ADDR_1000, 2),
        (ADDR_1000, 0)
    );
    assert_eq!(
        align_metadata_address(&metadata_8bits, ADDR_1000, 3),
        (ADDR_1000, 0)
    );
    assert_eq!(
        align_metadata_address(&metadata_8bits, ADDR_1000, 4),
        (ADDR_1000, 0)
    );
    assert_eq!(
        align_metadata_address(&metadata_8bits, ADDR_1000, 5),
        (ADDR_1000, 0)
    );
    assert_eq!(
        align_metadata_address(&metadata_8bits, ADDR_1000, 6),
        (ADDR_1000, 0)
    );
    assert_eq!(
        align_metadata_address(&metadata_8bits, ADDR_1000, 7),
        (ADDR_1000, 0)
    );

    let metadata_16bits = create_spec(4);
    assert_eq!(
        align_metadata_address(&metadata_16bits, ADDR_1000, 0),
        (ADDR_1000, 0)
    );
    assert_eq!(
        align_metadata_address(&metadata_16bits, ADDR_1000, 1),
        (ADDR_1000, 0)
    );
    assert_eq!(
        align_metadata_address(&metadata_16bits, ADDR_1000, 2),
        (ADDR_1000, 0)
    );
    assert_eq!(
        align_metadata_address(&metadata_16bits, ADDR_1000, 3),
        (ADDR_1000, 0)
    );
    assert_eq!(
        align_metadata_address(&metadata_16bits, ADDR_1000, 4),
        (ADDR_1000, 0)
    );
    assert_eq!(
        align_metadata_address(&metadata_16bits, ADDR_1000, 5),
        (ADDR_1000, 0)
    );
    assert_eq!(
        align_metadata_address(&metadata_16bits, ADDR_1000, 6),
        (ADDR_1000, 0)
    );
    assert_eq!(
        align_metadata_address(&metadata_16bits, ADDR_1000, 7),
        (ADDR_1000, 0)
    );
    assert_eq!(
        align_metadata_address(&metadata_16bits, ADDR_1001, 0),
        (ADDR_1000, 0)
    );
    assert_eq!(
        align_metadata_address(&metadata_16bits, ADDR_1001, 1),
        (ADDR_1000, 0)
    );
    assert_eq!(
        align_metadata_address(&metadata_16bits, ADDR_1001, 2),
        (ADDR_1000, 0)
    );
    assert_eq!(
        align_metadata_address(&metadata_16bits, ADDR_1001, 3),
        (ADDR_1000, 0)
    );
    assert_eq!(
        align_metadata_address(&metadata_16bits, ADDR_1001, 4),
        (ADDR_1000, 0)
    );
    assert_eq!(
        align_metadata_address(&metadata_16bits, ADDR_1001, 5),
        (ADDR_1000, 0)
    );
    assert_eq!(
        align_metadata_address(&metadata_16bits, ADDR_1001, 6),
        (ADDR_1000, 0)
    );
    assert_eq!(
        align_metadata_address(&metadata_16bits, ADDR_1001, 7),
        (ADDR_1000, 0)
    );
}
