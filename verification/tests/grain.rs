use mmtk::metadata::side_metadata::grain::{break_range, BitAddress, Granularity, VisitRange};

fn mk_addr(addr: u64) -> u64 {
    addr
}

fn mk_ba(addr: u64, bit: u64) -> BitAddress {
    BitAddress { addr: mk_addr(addr), bit }
}

fn g8bit() -> Granularity {
    Granularity::of_log_bytes(0)
}

fn g64bit() -> Granularity {
    Granularity::of_log_bytes(3)
}

fn gs() -> [Granularity; 2] {
    [g8bit(), g64bit()]
}

#[test]
fn test_grain_alignment() {
    let g64 = g64bit();
    let g8 = g8bit();
    assert!(mk_ba(0x1000, 0).is_grain_aligned(g64));
    assert!(!mk_ba(0x1000, 1).is_grain_aligned(g64));
    assert!(!mk_ba(0x1001, 0).is_grain_aligned(g64));
    assert!(!mk_ba(0x1001, 3).is_grain_aligned(g64));

    assert!(mk_ba(0x1001, 0).is_grain_aligned(g8));
    assert!(!mk_ba(0x1001, 3).is_grain_aligned(g8));
}

#[test]
fn test_is_normalized() {
    let g64 = g64bit();
    let g8 = g8bit();
    assert!(mk_ba(0x1000, 0).is_normalized(g64));
    assert!(mk_ba(0x1000, 63).is_normalized(g64));
    assert!(!mk_ba(0x1000, 64).is_normalized(g64));
    assert!(!mk_ba(0x1001, 0).is_normalized(g64));
    assert!(!mk_ba(0x1007, 0).is_normalized(g64));
    assert!(!mk_ba(0x1007, 63).is_normalized(g64));
    assert!(mk_ba(0x1008, 0).is_normalized(g64));

    assert!(mk_ba(0x1000, 0).is_normalized(g8));
    assert!(mk_ba(0x1000, 7).is_normalized(g8));
    assert!(!mk_ba(0x1000, 8).is_normalized(g8));
    assert!(mk_ba(0x1001, 0).is_normalized(g8));
}

#[test]
fn test_normalize() {
    let g64 = g64bit();
    assert_eq!(mk_ba(0x1000, 0).normalize(g64), mk_ba(0x1000, 0));
    assert_eq!(mk_ba(0x1000, 63).normalize(g64), mk_ba(0x1000, 63));
    assert_eq!(mk_ba(0x1000, 64).normalize(g64), mk_ba(0x1008, 0));
    assert_eq!(mk_ba(0x1000, 65).normalize(g64), mk_ba(0x1008, 1));
    assert_eq!(mk_ba(0x1001, 0).normalize(g64), mk_ba(0x1000, 8));
    assert_eq!(mk_ba(0x1007, 0).normalize(g64), mk_ba(0x1000, 56));
    assert_eq!(mk_ba(0x1007, 7).normalize(g64), mk_ba(0x1000, 63));
    assert_eq!(mk_ba(0x1007, 8).normalize(g64), mk_ba(0x1008, 0));
    assert_eq!(mk_ba(0x1007, 9).normalize(g64), mk_ba(0x1008, 1));
}

#[test]
fn grain_test_empty_range() {
    for g in gs() {
        let base = 0x1000;
        for bit in 0..g.bits() {
            let ba = mk_ba(base, bit);
            let result = break_range(g, ba, ba);
            assert!(result.is_empty(), "Not empty. bit: {bit}, result: {result:?}");
        }
    }
}

#[test]
fn test_subgrain_range() {
    for g in gs() {
        let base = 0x1000;
        for bit0 in 0..g.bits() {
            let ba0 = mk_ba(base, bit0);
            for bit1 in (bit0 + 1)..g.bits() {
                let ba1 = mk_ba(base, bit1);
                let result = break_range(g, ba0, ba1);
                assert_eq!(
                    result,
                    vec![VisitRange::SubGrain { addr: mk_addr(base), bit_start: bit0, bit_end: bit1 }],
                    "Not equal.  bit0: {bit0}, bit1: {bit1}",
                );
            }
        }
    }
}

#[test]
fn test_end_grain_range() {
    for g in gs() {
        let base = 0x1000;
        let ba1 = mk_ba(base + g.bytes(), 0);
        for bit0 in 1..g.bits() {
            let ba0 = mk_ba(base, bit0);
            let result = break_range(g, ba0, ba1);
            assert_eq!(
                result,
                vec![VisitRange::SubGrain { addr: mk_addr(base), bit_start: bit0, bit_end: g.bits() }],
                "Not equal.  bit0: {bit0}",
            );
        }
    }
}

#[test]
fn grain_test_adjacent_grain_range() {
    for g in gs() {
        let base = 0x1000;
        for bit0 in 1..g.bits() {
            let ba0 = mk_ba(base, bit0);
            for bit1 in 1..g.bits() {
                let ba1 = mk_ba(base + g.bytes(), bit1);
                let result = break_range(g, ba0, ba1);
                assert_eq!(
                    result,
                    vec![
                        VisitRange::SubGrain { addr: mk_addr(base), bit_start: bit0, bit_end: g.bits() },
                        VisitRange::SubGrain { addr: mk_addr(base + g.bytes()), bit_start: 0, bit_end: bit1 },
                    ],
                    "Not equal.  bit0: {bit0}, bit1: {bit1}",
                );
            }
        }
    }
}

#[test]
fn grain_test_left_and_whole_range() {
    for g in gs() {
        let base = 0x1000;
        for bit0 in 1..g.bits() {
            let ba0 = mk_ba(base, bit0);
            for word1 in 2..8 {
                let ba1 = mk_ba(base + word1 * g.bytes(), 0);
                let result = break_range(g, ba0, ba1);
                assert_eq!(
                    result,
                    vec![
                        VisitRange::SubGrain { addr: mk_addr(base), bit_start: bit0, bit_end: g.bits() },
                        VisitRange::WholeGrain { start: mk_addr(base + g.bytes()), end: mk_addr(base + word1 * g.bytes()) },
                    ],
                    "Not equal.  bit0: {bit0}, word1: {word1}",
                );
            }
        }
    }
}

#[test]
fn grain_test_whole_and_right_range() {
    for g in gs() {
        let base = 0x1000;
        for word0 in 1..8 {
            let ba0 = mk_ba(base - word0 * g.bytes(), 0);
            for bit1 in 1..g.bits() {
                let ba1 = mk_ba(base, bit1);
                let result = break_range(g, ba0, ba1);
                assert_eq!(
                    result,
                    vec![
                        VisitRange::WholeGrain { start: mk_addr(base - word0 * g.bytes()), end: mk_addr(base) },
                        VisitRange::SubGrain { addr: mk_addr(base), bit_start: 0, bit_end: bit1 },
                    ],
                    "Not equal.  word0: {word0}, bit1: {bit1}",
                );
            }
        }
    }
}

#[test]
fn grain_test_whole_range() {
    for g in gs() {
        let base = 0x1000;
        let ba0 = mk_ba(base, 0);
        let ba1 = mk_ba(base + 42 * g.bytes(), 0);
        let result = break_range(g, ba0, ba1);
        assert_eq!(
            result,
            vec![VisitRange::WholeGrain { start: mk_addr(base), end: mk_addr(base + 42 * g.bytes()) }],
        );
    }
}

#[test]
fn grain_test_left_whole_right_range() {
    for g in gs() {
        let base0 = 0x1000;
        let base1 = 0x2000;
        for bit0 in 1..g.bits() {
            let ba0 = mk_ba(base0 - g.bytes(), bit0);
            for bit1 in 1..g.bits() {
                let ba1 = mk_ba(base1, bit1);
                let result = break_range(g, ba0, ba1);
                assert_eq!(
                    result,
                    vec![
                        VisitRange::SubGrain { addr: mk_addr(base0 - g.bytes()), bit_start: bit0, bit_end: g.bits() },
                        VisitRange::WholeGrain { start: mk_addr(base0), end: mk_addr(base1) },
                        VisitRange::SubGrain { addr: mk_addr(base1), bit_start: 0, bit_end: bit1 },
                    ],
                    "Not equal.  bit0: {bit0}, bit1: {bit1}",
                );
            }
        }
    }
}

#[test]
fn normalize_of_a_large_bit_offset() {
    let g = Granularity::of_log_bytes(3);
    let ba = BitAddress { addr: 0, bit: u64::MAX - 1 };
    let n = ba.normalize(g);
    assert_eq!(n.addr, (1u64 << 61) - 8);
    assert_eq!(n.bit, 62);
    assert!(n.is_normalized(g));
}

#[test]
fn align_up_of_the_top_grain() {
    let g = Granularity::of_log_bytes(3);
    let top = u64::MAX - 7;
    let ba = BitAddress { addr: top, bit: 0 };
    assert_eq!(ba.align_up_to_grain(g), top);
    let inner = BitAddress { addr: 0x1000, bit: 5 };
    assert_eq!(inner.align_up_to_grain(g), 0x1008);
}

#[test]
fn break_range_pieces_are_ordered_and_apart() {
    let g = Granularity::of_log_bytes(3);
    let start = BitAddress { addr: 0x1000, bit: 5 };
    let end = BitAddress { addr: 0x1020, bit: 3 };
    let pieces = break_range(g, start, end);
    assert_eq!(
        pieces,
        vec![
            VisitRange::SubGrain { addr: 0x1000, bit_start: 5, bit_end: 64 },
            VisitRange::WholeGrain { start: 0x1008, end: 0x1020 },
            VisitRange::SubGrain { addr: 0x1020, bit_start: 0, bit_end: 3 },
        ]
    );
}
