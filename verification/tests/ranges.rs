use mmtk::constants::BITS_IN_BYTE;
use mmtk::metadata::side_metadata::ranges::{break_bit_range, BitByteRange};

fn mk_addr(addr: u64) -> u64 {
    addr
}

fn break_bit_range_wrapped(start_addr: u64, start_bit: u64, end_addr: u64, end_bit: u64) -> Vec<BitByteRange> {
    break_bit_range(start_addr, start_bit as u8, end_addr, end_bit as u8, true)
}

#[test]
fn ranges_test_empty_range() {
    let base = mk_addr(0x1000);
    for bit in 0..BITS_IN_BYTE {
        let result = break_bit_range_wrapped(base, bit, base, bit);
        assert!(result.is_empty(), "Not empty. bit: {bit}, result: {result:?}");
    }
}

#[test]
fn test_subbyte_range() {
    let base = mk_addr(0x1000);
    for bit0 in 0..BITS_IN_BYTE {
        for bit1 in (bit0 + 1)..BITS_IN_BYTE {
            let result = break_bit_range_wrapped(base, bit0, base, bit1);
            assert_eq!(
                result,
                vec![BitByteRange::BitsInByte { addr: base, bit_start: bit0 as u8, bit_end: bit1 as u8 }],
                "Not equal.  bit0: {bit0}, bit1: {bit1}",
            );
        }
    }
}

#[test]
fn test_end_byte_range() {
    let base = mk_addr(0x1000);
    for bit0 in 1..BITS_IN_BYTE {
        let result = break_bit_range_wrapped(base, bit0, base + 1, 0);
        assert_eq!(
            result,
            vec![BitByteRange::BitsInByte { addr: base, bit_start: bit0 as u8, bit_end: BITS_IN_BYTE as u8 }],
            "Not equal.  bit0: {bit0}",
        );
    }
}

#[test]
fn ranges_test_adjacent_grain_range() {
    let base = mk_addr(0x1000);
    for bit0 in 1..BITS_IN_BYTE {
        for bit1 in 1..BITS_IN_BYTE {
            let result = break_bit_range_wrapped(base, bit0, base + 1, bit1);
            assert_eq!(
                result,
                vec![
                    BitByteRange::BitsInByte { addr: base, bit_start: bit0 as u8, bit_end: BITS_IN_BYTE as u8 },
                    BitByteRange::BitsInByte { addr: base + 1, bit_start: 0, bit_end: bit1 as u8 },
                ],
                "Not equal.  bit0: {bit0}, bit1: {bit1}",
            );
        }
    }
}

#[test]
fn ranges_test_left_and_whole_range() {
    let base = mk_addr(0x1000);
    for bit0 in 1..BITS_IN_BYTE {
        for byte1 in 2u64..8 {
            let result = break_bit_range_wrapped(base, bit0, base + byte1, 0);
            assert_eq!(
                result,
                vec![
                    BitByteRange::BitsInByte { addr: base, bit_start: bit0 as u8, bit_end: BITS_IN_BYTE as u8 },
                    BitByteRange::Bytes { start: base + 1, end: base + byte1 },
                ],
                "Not equal.  bit0: {bit0}, byte1: {byte1}",
            );
        }
    }
}

#[test]
fn ranges_test_whole_and_right_range() {
    let base = mk_addr(0x1000);
    for byte0 in 1..8 {
        for bit1 in 1..BITS_IN_BYTE {
            let result = break_bit_range_wrapped(base - byte0, 0, base, bit1);
            assert_eq!(
                result,
                vec![
                    BitByteRange::Bytes { start: base - byte0, end: base },
                    BitByteRange::BitsInByte { addr: base, bit_start: 0, bit_end: bit1 as u8 },
                ],
                "Not equal.  byte0: {byte0}, bit1: {bit1}",
            );
        }
    }
}

#[test]
fn ranges_test_whole_range() {
    let base = mk_addr(0x1000);
    let result = break_bit_range_wrapped(base, 0, base + 42, 0);
    assert_eq!(result, vec![BitByteRange::Bytes { start: base, end: base + 42 }]);
}

#[test]
fn ranges_test_left_whole_right_range() {
    let base0 = mk_addr(0x1000);
    let base1 = mk_addr(0x2000);
    for bit0 in 1..BITS_IN_BYTE {
        for bit1 in 1..BITS_IN_BYTE {
            let result = break_bit_range_wrapped(base0 - 1, bit0, base1, bit1);
            assert_eq!(
                result,
                vec![
                    BitByteRange::BitsInByte { addr: base0 - 1, bit_start: bit0 as u8, bit_end: BITS_IN_BYTE as u8 },
                    BitByteRange::Bytes { start: base0, end: base1 },
                    BitByteRange::BitsInByte { addr: base1, bit_start: 0, bit_end: bit1 as u8 },
                ],
                "Not equal.  bit0: {bit0}, bit1: {bit1}",
            );
        }
    }
}
