use mmtk::memory::MemoryRegion;
use mmtk::metadata::side_metadata::scan::{
    non_zero_bits_in_metadata_bits, non_zero_bits_in_metadata_bytes, scan_non_zero_bits_in_metadata_bits,
    scan_non_zero_bits_in_metadata_bytes,
};

fn memory() -> MemoryRegion {
    let mut mem = MemoryRegion::new_zeroed(0x1000, 32);
    mem.store_u8(0x1001, 0b101);
    mem.store_u8(0x1009, 0x80);
    mem.store_u8(0x1012, 0x01);
    mem
}

#[test]
fn scan_bytes_then_words_then_bytes() {
    let mem = memory();
    // Bytes up to 0x1008, a word at 0x1008 (its bit 15 is bit 7 of 0x1009), then bytes.
    let expected = vec![(0x1001, 0), (0x1001, 2), (0x1008, 15), (0x1012, 0)];
    assert_eq!(non_zero_bits_in_metadata_bytes(&mem, 0x1001, 0x1013), expected);
    let mut seen: Vec<(u64, u8)> = Vec::new();
    scan_non_zero_bits_in_metadata_bytes(&mem, 0x1001, 0x1013, &mut |a: u64, b: u8| seen.push((a, b)));
    assert_eq!(seen, expected);
    // A word that ends at the end of the range is scanned byte by byte.
    assert_eq!(non_zero_bits_in_metadata_bytes(&mem, 0x1008, 0x1010), vec![(0x1009, 7)]);
    assert!(non_zero_bits_in_metadata_bytes(&mem, 0x1002, 0x1009).is_empty());
}

#[test]
fn scan_bits_of_a_byte() {
    let mem = memory();
    assert_eq!(non_zero_bits_in_metadata_bits(&mem, 0x1001, 0, 8), vec![(0x1001, 0), (0x1001, 2)]);
    assert_eq!(non_zero_bits_in_metadata_bits(&mem, 0x1001, 1, 8), vec![(0x1001, 2)]);
    let mut seen: Vec<(u64, u8)> = Vec::new();
    scan_non_zero_bits_in_metadata_bits(&mem, 0x1001, 0, 2, &mut |a: u64, b: u8| seen.push((a, b)));
    assert_eq!(seen, vec![(0x1001, 0)]);
}
