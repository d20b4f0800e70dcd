use mmtk::constants::GLOBAL_SIDE_METADATA_BASE_ADDRESS;
use mmtk::metadata::side_metadata::helpers::{
    address_to_contiguous_meta_address, contiguous_meta_address_to_address, meta_byte_lshift,
};
use mmtk::metadata::side_metadata::spec::{SideMetadataOffset, SideMetadataSpec};

fn test_round_trip_conversion(spec: &SideMetadataSpec, test_data: &[u64]) {
    for ref_addr in test_data {
        let addr = *ref_addr;
        // An aligned address comes back unchanged.
        {
            assert!(addr % (1u64 << spec.log_bytes_in_region) == 0);
            let meta_addr = address_to_contiguous_meta_address(spec, addr);
            let shift = meta_byte_lshift(spec, addr);
            assert_eq!(contiguous_meta_address_to_address(spec, meta_addr, shift), addr);
        }
        // An unaligned address comes back as the aligned address.
        {
            let next_addr = addr + 1;
            let meta_addr = address_to_contiguous_meta_address(spec, next_addr);
            let shift = meta_byte_lshift(spec, next_addr);
            assert_eq!(contiguous_meta_address_to_address(spec, meta_addr, shift), addr);
        }
    }
}

const TEST_ADDRESS_8B_REGION: [u64; 8] = [
    0x8000_0000,
    0x8000_0008,
    0x8000_0010,
    0x8000_0018,
    0x8000_0020,
    0x8001_0000,
    0x8001_0008,
    0xd000_0000,
];

fn spec(log_num_of_bits: usize, log_bytes_in_region: usize) -> SideMetadataSpec {
    SideMetadataSpec {
        name: "ContiguousMetadataTestSpec",
        is_global: true,
        offset: SideMetadataOffset::addr(GLOBAL_SIDE_METADATA_BASE_ADDRESS),
        log_num_of_bits,
        log_bytes_in_region,
    }
}

#[test]
fn test_contiguous_metadata_conversion_0_3() {
    test_round_trip_conversion(&spec(0, 3), &TEST_ADDRESS_8B_REGION);
}

#[test]
fn test_contiguous_metadata_conversion_1_3() {
    test_round_trip_conversion(&spec(1, 3), &TEST_ADDRESS_8B_REGION);
}

#[test]
fn test_contiguous_metadata_conversion_4_3() {
    test_round_trip_conversion(&spec(4, 3), &TEST_ADDRESS_8B_REGION);
}

#[test]
fn test_contiguous_metadata_conversion_5_3() {
    test_round_trip_conversion(&spec(5, 3), &TEST_ADDRESS_8B_REGION);
}

const TEST_ADDRESS_4KB_REGION: [u64; 8] = [
    0x8000_0000,
    0x8000_1000,
    0x8000_2000,
    0x8000_3000,
    0x8000_4000,
    0x8001_0000,
    0x8001_1000,
    0xd000_0000,
];

#[test]
fn test_contiguous_metadata_conversion_0_12() {
    test_round_trip_conversion(&spec(0, 12), &TEST_ADDRESS_4KB_REGION);
}
