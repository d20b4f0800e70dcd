use mmtk::memory::MemoryRegion;
use mmtk::metadata::side_metadata::search::{
    find_last_non_zero_bit_in_metadata_bits, find_last_non_zero_bit_in_metadata_bytes, FindMetaBitResult,
};

const CHUNK: u64 = 0x40_0000;

fn one_chunk() -> MemoryRegion {
    MemoryRegion::new_zeroed(CHUNK, CHUNK as usize)
}

#[test]
fn bytes_all_zero_is_not_found() {
    let mem = one_chunk();
    let r = find_last_non_zero_bit_in_metadata_bytes(&mem, CHUNK + 3, CHUNK + 100);
    assert_eq!(r, FindMetaBitResult::NotFound);
}

#[test]
fn bytes_empty_range_is_not_found() {
    let mem = one_chunk();
    let r = find_last_non_zero_bit_in_metadata_bytes(&mem, CHUNK + 16, CHUNK + 16);
    assert_eq!(r, FindMetaBitResult::NotFound);
}

#[test]
fn bytes_finds_last_set_bit_in_a_word() {
    let mut mem = one_chunk();
    mem.store_u8(CHUNK + 10, 0b0000_0001);
    mem.store_u8(CHUNK + 21, 0b0010_0100);
    let r = find_last_non_zero_bit_in_metadata_bytes(&mem, CHUNK, CHUNK + 64);
    assert_eq!(r, FindMetaBitResult::Found { addr: CHUNK + 21, bit: 5 });
}

#[test]
fn bytes_finds_set_bit_in_unaligned_tail() {
    let mut mem = one_chunk();
    mem.store_u8(CHUNK + 2, 0b1000_0000);
    mem.store_u8(CHUNK + 66, 0b0000_0010);
    let r = find_last_non_zero_bit_in_metadata_bytes(&mem, CHUNK + 1, CHUNK + 67);
    assert_eq!(r, FindMetaBitResult::Found { addr: CHUNK + 66, bit: 1 });
    // A byte outside the range is not seen.
    let r = find_last_non_zero_bit_in_metadata_bytes(&mem, CHUNK + 1, CHUNK + 66);
    assert_eq!(r, FindMetaBitResult::Found { addr: CHUNK + 2, bit: 7 });
}

#[test]
fn bytes_unmapped_metadata() {
    let mem = one_chunk();
    let r = find_last_non_zero_bit_in_metadata_bytes(&mem, CHUNK - 16, CHUNK + 8);
    assert_eq!(r, FindMetaBitResult::UnmappedMetadata);
    let r = find_last_non_zero_bit_in_metadata_bytes(&mem, 2 * CHUNK - 8, 2 * CHUNK + 5);
    assert_eq!(r, FindMetaBitResult::UnmappedMetadata);
}

#[test]
fn bytes_set_bit_above_unmapped_gap_is_found() {
    let mut mem = one_chunk();
    mem.store_u8(CHUNK + 5, 1);
    let r = find_last_non_zero_bit_in_metadata_bytes(&mem, CHUNK - 16, CHUNK + 8);
    assert_eq!(r, FindMetaBitResult::Found { addr: CHUNK + 5, bit: 0 });
}

#[test]
fn bits_in_one_byte() {
    let mut mem = one_chunk();
    mem.store_u8(CHUNK + 7, 0b0101_0010);
    assert_eq!(
        find_last_non_zero_bit_in_metadata_bits(&mem, CHUNK + 7, 0, 8),
        FindMetaBitResult::Found { addr: CHUNK + 7, bit: 6 }
    );
    assert_eq!(
        find_last_non_zero_bit_in_metadata_bits(&mem, CHUNK + 7, 0, 6),
        FindMetaBitResult::Found { addr: CHUNK + 7, bit: 4 }
    );
    assert_eq!(find_last_non_zero_bit_in_metadata_bits(&mem, CHUNK + 7, 2, 4), FindMetaBitResult::NotFound);
    assert_eq!(
        find_last_non_zero_bit_in_metadata_bits(&mem, CHUNK - 1, 0, 8),
        FindMetaBitResult::UnmappedMetadata
    );
}
