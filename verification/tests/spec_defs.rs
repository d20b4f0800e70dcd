use mmtk::metadata::side_metadata::layout::{
    define_side_metadata_specs, global_side_metadata_base_offset, local_side_metadata_base_offset, SideMetadataSpecDef,
};
use mmtk::metadata::side_metadata::spec::{SideMetadataOffset, SideMetadataSpec};

fn def(name: &'static str, is_global: bool, log_num_of_bits: usize, log_bytes_in_region: usize) -> SideMetadataSpecDef {
    SideMetadataSpecDef { name, is_global, log_num_of_bits, log_bytes_in_region }
}

/// The specs defined, and the last of them.
fn define(defs: &[SideMetadataSpecDef]) -> (Vec<SideMetadataSpec>, SideMetadataSpec) {
    let specs = define_side_metadata_specs(defs);
    let last = *specs.last().unwrap();
    (specs, last)
}

#[test]
fn first_global_spec() {
    let (specs, last_global_spec) = define(&[def("TEST_SPEC", true, 0, 3)]);
    let test_spec = specs[0];
    assert!(test_spec.is_global);
    assert!(test_spec.offset == global_side_metadata_base_offset());
    assert_eq!(test_spec.log_num_of_bits, 0);
    assert_eq!(test_spec.log_bytes_in_region, 3);
    assert_eq!(test_spec, last_global_spec);
}

#[test]
fn first_local_spec() {
    let (specs, last_local_spec) = define(&[def("TEST_SPEC", false, 0, 3)]);
    let test_spec = specs[0];
    assert!(!test_spec.is_global);
    assert!(test_spec.offset == local_side_metadata_base_offset());
    assert_eq!(test_spec.log_num_of_bits, 0);
    assert_eq!(test_spec.log_bytes_in_region, 3);
    assert_eq!(test_spec, last_local_spec);
}

#[test]
fn two_global_specs() {
    let (specs, last_global_spec) = define(&[def("TEST_SPEC1", true, 0, 3), def("TEST_SPEC2", true, 1, 4)]);
    let (test_spec1, test_spec2) = (specs[0], specs[1]);

    assert!(test_spec1.is_global);
    assert!(test_spec1.offset == global_side_metadata_base_offset());
    assert_eq!(test_spec1.log_num_of_bits, 0);
    assert_eq!(test_spec1.log_bytes_in_region, 3);

    assert!(test_spec2.is_global);
    assert!(test_spec2.offset == SideMetadataOffset::layout_after(&test_spec1));
    assert_eq!(test_spec2.log_num_of_bits, 1);
    assert_eq!(test_spec2.log_bytes_in_region, 4);

    assert_eq!(test_spec2, last_global_spec);
}

#[test]
fn three_global_specs() {
    let (specs, last_global_spec) = define(&[
        def("TEST_SPEC1", true, 0, 3),
        def("TEST_SPEC2", true, 1, 4),
        def("TEST_SPEC3", true, 2, 5),
    ]);
    let (test_spec1, test_spec2, test_spec3) = (specs[0], specs[1], specs[2]);

    assert!(test_spec1.is_global);
    assert!(test_spec1.offset == global_side_metadata_base_offset());
    assert_eq!(test_spec1.log_num_of_bits, 0);
    assert_eq!(test_spec1.log_bytes_in_region, 3);

    assert!(test_spec2.is_global);
    assert!(test_spec2.offset == SideMetadataOffset::layout_after(&test_spec1));
    assert_eq!(test_spec2.log_num_of_bits, 1);
    assert_eq!(test_spec2.log_bytes_in_region, 4);

    assert!(test_spec3.is_global);
    assert!(test_spec3.offset == SideMetadataOffset::layout_after(&test_spec2));
    assert_eq!(test_spec3.log_num_of_bits, 2);
    assert_eq!(test_spec3.log_bytes_in_region, 5);

    assert_eq!(test_spec3, last_global_spec);
}

#[test]
fn both_global_and_local() {
    let (gspecs, last_global_spec) = define(&[def("TEST_GSPEC1", true, 0, 3), def("TEST_GSPEC2", true, 1, 4)]);
    let (lspecs, last_local_spec) = define(&[def("TEST_LSPEC1", false, 2, 5), def("TEST_LSPEC2", false, 3, 6)]);
    let (test_gspec1, test_gspec2) = (gspecs[0], gspecs[1]);
    let (test_lspec1, test_lspec2) = (lspecs[0], lspecs[1]);

    assert!(test_gspec1.is_global);
    assert!(test_gspec1.offset == global_side_metadata_base_offset());
    assert_eq!(test_gspec1.log_num_of_bits, 0);
    assert_eq!(test_gspec1.log_bytes_in_region, 3);

    assert!(test_gspec2.is_global);
    assert!(test_gspec2.offset == SideMetadataOffset::layout_after(&test_gspec1));
    assert_eq!(test_gspec2.log_num_of_bits, 1);
    assert_eq!(test_gspec2.log_bytes_in_region, 4);

    assert_eq!(test_gspec2, last_global_spec);

    assert!(!test_lspec1.is_global);
    assert!(test_lspec1.offset == local_side_metadata_base_offset());
    assert_eq!(test_lspec1.log_num_of_bits, 2);
    assert_eq!(test_lspec1.log_bytes_in_region, 5);

    assert!(!test_lspec2.is_global);
    assert!(test_lspec2.offset == SideMetadataOffset::layout_after(&test_lspec1));
    assert_eq!(test_lspec2.log_num_of_bits, 3);
    assert_eq!(test_lspec2.log_bytes_in_region, 6);

    assert_eq!(test_lspec2, last_local_spec);
}
