use mmtk::metadata::side_metadata::sanity::{
    truncate_value, verify_global_specs_total_size, verify_local_specs_size_per_chunk, verify_no_overlap_contiguous,
};
use mmtk::metadata::side_metadata::spec::{metadata_address_range_size, SideMetadataOffset, SideMetadataSpec};

const U8_LOG2: u64 = 3;

#[test]
fn test_truncate() {
    assert_eq!(truncate_value(U8_LOG2, 2, 0), 0);
    assert_eq!(truncate_value(U8_LOG2, 2, 15), 15);
    assert_eq!(truncate_value(U8_LOG2, 2, 16), 0);
    assert_eq!(truncate_value(U8_LOG2, 2, 17), 1);
}

#[test]
fn test_side_metadata_sanity_verify_global_specs_total_size() {
    let spec_1 = SideMetadataSpec {
        name: "spec_1",
        is_global: true,
        offset: SideMetadataOffset::addr(0),
        log_num_of_bits: 0,
        log_bytes_in_region: 0,
    };
    let spec_2 = SideMetadataSpec {
        name: "spec_2",
        is_global: true,
        offset: SideMetadataOffset::layout_after(&spec_1),
        log_num_of_bits: 0,
        log_bytes_in_region: 0,
    };

    assert!(verify_global_specs_total_size(&[spec_1]).is_ok());
    assert!(verify_global_specs_total_size(&[spec_1, spec_2]).is_ok());

    let spec_2 = SideMetadataSpec {
        name: "spec_2",
        is_global: true,
        offset: SideMetadataOffset::layout_after(&spec_1),
        log_num_of_bits: 3,
        log_bytes_in_region: 1,
    };

    assert!(verify_global_specs_total_size(&[spec_1, spec_2]).is_err());

    let spec_1 = SideMetadataSpec {
        name: "spec_1",
        is_global: true,
        offset: SideMetadataOffset::addr(0),
        log_num_of_bits: 1,
        log_bytes_in_region: 0,
    };
    let spec_2 = SideMetadataSpec {
        name: "spec_2",
        is_global: true,
        offset: SideMetadataOffset::layout_after(&spec_1),
        log_num_of_bits: 3,
        log_bytes_in_region: 2,
    };

    assert!(verify_global_specs_total_size(&[spec_1, spec_2]).is_ok());
    assert!(verify_global_specs_total_size(&[spec_1, spec_2, spec_1]).is_err());
}

#[test]
fn test_side_metadata_sanity_verify_no_overlap_contiguous() {
    let spec_1 = SideMetadataSpec {
        name: "spec_1",
        is_global: true,
        offset: SideMetadataOffset::addr(0),
        log_num_of_bits: 0,
        log_bytes_in_region: 0,
    };
    let spec_2 = SideMetadataSpec {
        name: "spec_2",
        is_global: true,
        offset: SideMetadataOffset::layout_after(&spec_1),
        log_num_of_bits: 0,
        log_bytes_in_region: 0,
    };

    assert!(verify_no_overlap_contiguous(&spec_1, &spec_1).is_err());
    assert!(verify_no_overlap_contiguous(&spec_1, &spec_2).is_ok());

    let spec_1 = SideMetadataSpec {
        name: "spec_1",
        is_global: true,
        offset: SideMetadataOffset::addr(1),
        log_num_of_bits: 0,
        log_bytes_in_region: 0,
    };

    assert!(verify_no_overlap_contiguous(&spec_1, &spec_2).is_err());

    let spec_1 = SideMetadataSpec {
        name: "spec_1",
        is_global: true,
        offset: SideMetadataOffset::addr(0),
        log_num_of_bits: 0,
        log_bytes_in_region: 0,
    };
    let spec_2 = SideMetadataSpec {
        name: "spec_2",
        is_global: true,
        // We specifically make up an invalid offset
        offset: SideMetadataOffset::addr(spec_1.get_absolute_offset() + metadata_address_range_size(&spec_1) - 1),
        log_num_of_bits: 0,
        log_bytes_in_region: 0,
    };

    assert!(verify_no_overlap_contiguous(&spec_1, &spec_2).is_err());
}

#[test]
fn test_side_metadata_sanity_verify_local_specs_size() {
    let spec_1 = SideMetadataSpec {
        name: "spec_1",
        is_global: false,
        offset: SideMetadataOffset::rel(0),
        log_num_of_bits: 0,
        log_bytes_in_region: 0,
    };

    assert!(verify_local_specs_size_per_chunk(&[spec_1]).is_ok());
    assert!(verify_local_specs_size_per_chunk(&[spec_1, spec_1]).is_err());
    assert!(verify_local_specs_size_per_chunk(&[spec_1, spec_1, spec_1, spec_1, spec_1]).is_err());
}
