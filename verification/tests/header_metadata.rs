use mmtk::metadata::header_metadata::HeaderMetadataSpec;

const U8_LOG2: u32 = 3;
const U16_LOG2: u32 = 4;

#[test]
fn test_valid_specs() {
    let spec = HeaderMetadataSpec { bit_offset: 0, num_of_bits: 1 };
    assert!(spec.check_spec(U8_LOG2));

    let spec = HeaderMetadataSpec { bit_offset: 99, num_of_bits: 1 };
    assert!(spec.check_spec(U8_LOG2));

    let spec = HeaderMetadataSpec { bit_offset: 0, num_of_bits: 8 };
    assert!(spec.check_spec(U8_LOG2));

    let spec = HeaderMetadataSpec { bit_offset: 8, num_of_bits: 8 };
    assert!(spec.check_spec(U8_LOG2));

    let spec = HeaderMetadataSpec { bit_offset: 32, num_of_bits: 8 };
    assert!(spec.check_spec(U8_LOG2));
}

#[test]
#[should_panic]
fn test_spec_at_unaligned_offset() {
    let spec = HeaderMetadataSpec { bit_offset: 8, num_of_bits: 16 };
    assert!(spec.check_spec(U16_LOG2), "bit_offset must be aligned to 16");
}

#[test]
#[should_panic]
fn test_bits_spec_across_byte() {
    // bits across byte boundary
    let spec = HeaderMetadataSpec { bit_offset: 7, num_of_bits: 2 };
    assert!(spec.check_spec(U8_LOG2), "metadata stretches over two bytes");
}

#[test]
fn test_negative_bit_offset() {
    let spec = HeaderMetadataSpec { bit_offset: -1, num_of_bits: 1 };
    assert!(spec.check_spec(U8_LOG2));
    assert_eq!(spec.get_shift_and_mask_for_bits(), (7, 0b1000_0000));
    assert_eq!(spec.byte_offset(), -1);
    assert_eq!(spec.get_bits_from_u8(0b1000_0000), 1);
    assert_eq!(spec.get_bits_from_u8(0b0111_1111), 0);

    let spec = HeaderMetadataSpec { bit_offset: -2, num_of_bits: 1 };
    assert!(spec.check_spec(U8_LOG2));
    assert_eq!(spec.get_shift_and_mask_for_bits(), (6, 0b0100_0000));
    assert_eq!(spec.byte_offset(), -1);
    assert_eq!(spec.get_bits_from_u8(0b0100_0000), 1);
    assert_eq!(spec.get_bits_from_u8(0b1011_1111), 0);

    let spec = HeaderMetadataSpec { bit_offset: -7, num_of_bits: 1 };
    assert!(spec.check_spec(U8_LOG2));
    assert_eq!(spec.get_shift_and_mask_for_bits(), (1, 0b0000_0010));
    assert_eq!(spec.byte_offset(), -1);
    assert_eq!(spec.get_bits_from_u8(0b0000_0010), 1);
    assert_eq!(spec.get_bits_from_u8(0b1111_1101), 0);

    let spec = HeaderMetadataSpec { bit_offset: -8, num_of_bits: 1 };
    assert!(spec.check_spec(U8_LOG2));
    assert_eq!(spec.get_shift_and_mask_for_bits(), (0, 0b0000_0001));
    assert_eq!(spec.byte_offset(), -1);
    assert_eq!(spec.get_bits_from_u8(0b0000_0001), 1);
    assert_eq!(spec.get_bits_from_u8(0b1111_1110), 0);

    let spec = HeaderMetadataSpec { bit_offset: -9, num_of_bits: 1 };
    assert!(spec.check_spec(U8_LOG2));
    assert_eq!(spec.get_shift_and_mask_for_bits(), (7, 0b1000_0000));
    assert_eq!(spec.byte_offset(), -2);
    assert_eq!(spec.get_bits_from_u8(0b1000_0000), 1);
    assert_eq!(spec.get_bits_from_u8(0b0111_1111), 0);
}

#[test]
fn test_get_bits_from_u8() {
    // 1 bit
    let spec = HeaderMetadataSpec { bit_offset: 0, num_of_bits: 1 };
    assert_eq!(spec.get_shift_and_mask_for_bits(), (0, 0b1));
    assert_eq!(spec.byte_offset(), 0);
    assert_eq!(spec.get_bits_from_u8(0b0000_0001), 1);
    assert_eq!(spec.get_bits_from_u8(0b1111_1110), 0);

    let spec = HeaderMetadataSpec { bit_offset: 1, num_of_bits: 1 };
    assert_eq!(spec.get_shift_and_mask_for_bits(), (1, 0b10));
    assert_eq!(spec.get_bits_from_u8(0b0000_0010), 1);
    assert_eq!(spec.get_bits_from_u8(0b1111_1101), 0);

    let spec = HeaderMetadataSpec { bit_offset: 7, num_of_bits: 1 };
    assert_eq!(spec.get_shift_and_mask_for_bits(), (7, 0b1000_0000));
    assert_eq!(spec.get_bits_from_u8(0b1000_0000), 1);
    assert_eq!(spec.get_bits_from_u8(0b0111_1111), 0);

    // 1 bit in the next byte
    let spec = HeaderMetadataSpec { bit_offset: 8, num_of_bits: 1 };
    assert_eq!(spec.get_shift_and_mask_for_bits(), (0, 0b1));
    assert_eq!(spec.get_bits_from_u8(0b0000_0001), 1);
    assert_eq!(spec.get_bits_from_u8(0b1111_1110), 0);

    // 2 bits
    let spec = HeaderMetadataSpec { bit_offset: 0, num_of_bits: 2 };
    assert_eq!(spec.get_shift_and_mask_for_bits(), (0, 0b11));
    assert_eq!(spec.get_bits_from_u8(0b0000_0011), 0b11);
    assert_eq!(spec.get_bits_from_u8(0b0000_0010), 0b10);
    assert_eq!(spec.get_bits_from_u8(0b1111_1110), 0b10);

    let spec = HeaderMetadataSpec { bit_offset: 6, num_of_bits: 2 };
    assert_eq!(spec.get_shift_and_mask_for_bits(), (6, 0b1100_0000));
    assert_eq!(spec.get_bits_from_u8(0b1100_0000), 0b11);
    assert_eq!(spec.get_bits_from_u8(0b1000_0000), 0b10);
    assert_eq!(spec.get_bits_from_u8(0b1011_1111), 0b10);

    // 2 bits in the next byte
    let spec = HeaderMetadataSpec { bit_offset: 8, num_of_bits: 2 };
    assert_eq!(spec.get_shift_and_mask_for_bits(), (0, 0b0000_0011));
    assert_eq!(spec.get_bits_from_u8(0b0000_0011), 0b11);
    assert_eq!(spec.get_bits_from_u8(0b0000_0010), 0b10);
    assert_eq!(spec.get_bits_from_u8(0b1111_1110), 0b10);
}

#[test]
fn test_set_bits_to_u8() {
    // 1 bit
    let spec = HeaderMetadataSpec { bit_offset: 0, num_of_bits: 1 };
    assert_eq!(spec.set_bits_to_u8(0b0000_0000, 1), 0b0000_0001);
    assert_eq!(spec.set_bits_to_u8(0b1111_1111, 1), 0b1111_1111);
    assert_eq!(spec.set_bits_to_u8(0b1111_1111, 0), 0b1111_1110);

    let spec = HeaderMetadataSpec { bit_offset: 1, num_of_bits: 1 };
    assert_eq!(spec.set_bits_to_u8(0b0000_0000, 1), 0b0000_0010);
    assert_eq!(spec.set_bits_to_u8(0b1111_1111, 1), 0b1111_1111);
    assert_eq!(spec.set_bits_to_u8(0b1111_1111, 0), 0b1111_1101);

    // 2 bit
    let spec = HeaderMetadataSpec { bit_offset: 0, num_of_bits: 2 };
    assert_eq!(spec.set_bits_to_u8(0b0000_0000, 0b11), 0b0000_0011);
    assert_eq!(spec.set_bits_to_u8(0b1111_1111, 0b11), 0b1111_1111);
    assert_eq!(spec.set_bits_to_u8(0b1111_1111, 0b10), 0b1111_1110);
    assert_eq!(spec.set_bits_to_u8(0b1111_1111, 0b01), 0b1111_1101);
    assert_eq!(spec.set_bits_to_u8(0b1111_1111, 0b00), 0b1111_1100);
}

#[test]
#[should_panic]
fn test_set_bits_to_u8_exceeds_bits() {
    let spec = HeaderMetadataSpec { bit_offset: 0, num_of_bits: 1 };
    let val = 0b11;
    assert_eq!(spec.truncate_bits_in_u8(val), val, "the value does not fit in the metadata bits");
    spec.set_bits_to_u8(0, val);
}
