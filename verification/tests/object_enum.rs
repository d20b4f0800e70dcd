use mmtk::memory::MemoryRegion;
use mmtk::metadata::vo_bit::set_vo_bit;
use mmtk::object_enum::{objects_in_range, ClosureObjectEnumerator, ObjectEnumerator};

/// Objects live from this address; their VO bits lie at a 64th of it.
const DATA_START: u64 = 0x10_0000;

fn side_table() -> MemoryRegion {
    MemoryRegion::new_zeroed(DATA_START / 64, 4096)
}

#[test]
fn objects_in_range_lists_set_bits_in_order() {
    let mut mem = side_table();
    for off in [0x48u64, 0x8, 0x400, 0x3f8] {
        set_vo_bit(&mut mem, DATA_START + off);
    }
    let objs = objects_in_range(&mem, DATA_START, DATA_START + 0x400);
    assert_eq!(objs, vec![DATA_START + 0x8, DATA_START + 0x48, DATA_START + 0x3f8]);
    let objs = objects_in_range(&mem, DATA_START + 0x10, DATA_START + 0x3f8);
    assert_eq!(objs, vec![DATA_START + 0x48]);
    assert!(objects_in_range(&mem, DATA_START + 0x50, DATA_START + 0x50).is_empty());
}

#[test]
fn closure_enumerator_visits_objects() {
    let mut mem = side_table();
    set_vo_bit(&mut mem, DATA_START + 0x100);
    set_vo_bit(&mut mem, DATA_START + 0x20);
    let mut seen: Vec<u64> = Vec::new();
    {
        let mut enumerator = ClosureObjectEnumerator::new(|o: u64| seen.push(o));
        enumerator.visit_object(DATA_START + 0x800);
        enumerator.visit_address_range(&mem, DATA_START, DATA_START + 0x200);
    }
    assert_eq!(seen, vec![DATA_START + 0x800, DATA_START + 0x20, DATA_START + 0x100]);
}
