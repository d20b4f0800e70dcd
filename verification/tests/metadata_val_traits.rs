use mmtk::memory::MemoryRegion;
use mmtk::metadata::metadata_val_traits::{Bits, BitwiseOps, MetadataValue};

#[test]
fn widths_and_logs() {
    assert_eq!(<u8 as Bits>::bits(), 8);
    assert_eq!(<u8 as Bits>::log2(), 3);
    assert_eq!(<u16 as Bits>::bits(), 16);
    assert_eq!(<u16 as Bits>::log2(), 4);
    assert_eq!(<u32 as Bits>::bits(), 32);
    assert_eq!(<u32 as Bits>::log2(), 5);
    assert_eq!(<u64 as Bits>::bits(), 64);
    assert_eq!(<u64 as Bits>::log2(), 6);
    assert_eq!(1u32 << <usize as Bits>::log2(), <usize as Bits>::bits());
}

#[test]
fn bitwise_ops() {
    assert_eq!(0b1100u8.bitand(0b1010), 0b1000);
    assert_eq!(0b1100u8.bitor(0b1010), 0b1110);
    assert_eq!(0b1100u8.bitxor(0b1010), 0b0110);
    assert_eq!(0b1100u8.inv(), 0b1111_0011);
    assert_eq!(0xff00u16.inv(), 0x00ff);
    assert_eq!(u32::MAX.bitand(0xf0), 0xf0);
    assert_eq!(1u64.bitor(1 << 63), 0x8000_0000_0000_0001);
    assert_eq!(7usize.bitxor(2), 5);
}

const BASE: u64 = 0x1000_0000;

#[test]
fn metadata_value_store_then_load() {
    let mut mem = MemoryRegion::new_zeroed(BASE, 64);
    <u32 as MetadataValue>::store(&mut mem, BASE + 4, 0xdead_beef);
    assert_eq!(<u32 as MetadataValue>::load(&mem, BASE + 4), 0xdead_beef);
    assert_eq!(mem.load_u8(BASE + 4), 0xef);
    assert_eq!(mem.load_u8(BASE + 7), 0xde);
    assert_eq!(<u8 as MetadataValue>::load(&mem, BASE + 8), 0);
    <u64 as MetadataValue>::store_atomic(&mut mem, BASE + 16, u64::MAX - 1);
    assert_eq!(<u64 as MetadataValue>::load_atomic(&mem, BASE + 16), u64::MAX - 1);
    <u16 as MetadataValue>::store(&mut mem, BASE + 32, 0x1234);
    assert_eq!(<u8 as MetadataValue>::load(&mem, BASE + 33), 0x12);
}

#[test]
fn metadata_value_fetch_add_sub_wrap() {
    let mut mem = MemoryRegion::new_zeroed(BASE, 16);
    <u8 as MetadataValue>::store(&mut mem, BASE, 250);
    assert_eq!(<u8 as MetadataValue>::fetch_add(&mut mem, BASE, 10), 250);
    assert_eq!(<u8 as MetadataValue>::load(&mem, BASE), 4);
    assert_eq!(<u8 as MetadataValue>::fetch_sub(&mut mem, BASE, 5), 4);
    assert_eq!(<u8 as MetadataValue>::load(&mem, BASE), 255);
    assert_eq!(<u16 as MetadataValue>::fetch_add(&mut mem, BASE + 2, 300), 0);
    assert_eq!(<u16 as MetadataValue>::load(&mem, BASE + 2), 300);
}

#[test]
fn metadata_value_fetch_and_or() {
    let mut mem = MemoryRegion::new_zeroed(BASE, 16);
    assert_eq!(<u64 as MetadataValue>::fetch_or(&mut mem, BASE + 8, 0b1010), 0);
    assert_eq!(<u64 as MetadataValue>::fetch_and(&mut mem, BASE + 8, 0b0110), 0b1010);
    assert_eq!(<u64 as MetadataValue>::load(&mem, BASE + 8), 0b0010);
}

#[test]
fn metadata_value_compare_exchange() {
    let mut mem = MemoryRegion::new_zeroed(BASE, 16);
    <u32 as MetadataValue>::store(&mut mem, BASE, 7);
    assert_eq!(<u32 as MetadataValue>::compare_exchange(&mut mem, BASE, 7, 9), Ok(7));
    assert_eq!(<u32 as MetadataValue>::load(&mem, BASE), 9);
    assert_eq!(<u32 as MetadataValue>::compare_exchange(&mut mem, BASE, 7, 11), Err(9));
    assert_eq!(<u32 as MetadataValue>::load(&mem, BASE), 9);
}

#[test]
fn metadata_value_fetch_update() {
    let mut mem = MemoryRegion::new_zeroed(BASE, 16);
    <u8 as MetadataValue>::store(&mut mem, BASE, 3);
    let r = <u8 as MetadataValue>::fetch_update(&mut mem, BASE, |v: u8| if v < 10 { Some(v + 1) } else { None });
    assert_eq!(r, Ok(3));
    assert_eq!(<u8 as MetadataValue>::load(&mem, BASE), 4);
    <u8 as MetadataValue>::store(&mut mem, BASE, 10);
    let r = <u8 as MetadataValue>::fetch_update(&mut mem, BASE, |v: u8| if v < 10 { Some(v + 1) } else { None });
    assert_eq!(r, Err(10));
    assert_eq!(<u8 as MetadataValue>::load(&mem, BASE), 10);
}
