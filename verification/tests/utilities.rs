use mmtk::conversions::{bytes_to_pages_up, pages_to_bytes, raw_align_down, raw_align_up, raw_is_aligned};
use mmtk::memory::MemoryRegion;
use mmtk::object_gc_stats::{unifiable_gcbyte_forwarding_word_offset, GCByte, GCForwardingWord, GcByteLayout};
use mmtk::ref_scan_policy::{All, RefScanPolicy, RefUpdate, StrongClosure, StrongOnly, WeakOnly};
use mmtk::rust_util::{min_of_usize, InitializeOnce};
use mmtk::str_parse::{chars_eq, parse_bool, parse_i32, parse_u64, split_str, str_eq};

#[test]
fn alignment() {
    assert_eq!(raw_align_up(4097, 4096), 8192);
    assert_eq!(raw_align_up(4096, 4096), 4096);
    assert_eq!(raw_align_down(8191, 4096), 4096);
    assert!(raw_is_aligned(8192, 4096));
    assert!(!raw_is_aligned(8193, 4096));
    assert_eq!(pages_to_bytes(3), 12288);
    assert_eq!(bytes_to_pages_up(4097), 2);
    assert_eq!(bytes_to_pages_up(4096), 1);
    assert_eq!(bytes_to_pages_up(0), 0);
}

#[test]
fn parsing() {
    assert_eq!(parse_u64("42"), Some(42));
    assert_eq!(parse_u64("+7"), Some(7));
    assert_eq!(parse_u64("18446744073709551615"), Some(u64::MAX));
    assert_eq!(parse_u64("18446744073709551616"), None);
    assert_eq!(parse_u64(""), None);
    assert_eq!(parse_u64("1x"), None);
    assert_eq!(parse_i32("-2147483648"), Some(i32::MIN));
    assert_eq!(parse_i32("2147483647"), Some(i32::MAX));
    assert_eq!(parse_i32("2147483648"), None);
    assert_eq!(parse_i32("-"), None);
    assert_eq!(parse_bool("true"), Some(true));
    assert_eq!(parse_bool("false"), Some(false));
    assert_eq!(parse_bool("True"), None);
    assert!(str_eq("abc", "abc"));
    assert!(!str_eq("abc", "abd"));
    assert!(chars_eq(&vec!['a', 'b'], "ab"));
    assert!(!chars_eq(&vec!['a'], "ab"));
    assert_eq!(split_str("a,bc,,d", ','), vec!["a", "bc", "", "d"]);
    assert_eq!(split_str("", ','), vec![""]);
}

#[test]
fn min_and_initialize_once() {
    assert_eq!(min_of_usize(3, 5), 3);
    assert_eq!(min_of_usize(5, 3), 3);
    let mut once: InitializeOnce<u64> = InitializeOnce::new();
    assert!(!once.is_completed());
    let mut calls = 0;
    once.initialize_once(|| {
        calls += 1;
        7
    });
    once.initialize_once(|| 9);
    assert_eq!(calls, 1);
    assert!(once.is_completed());
    assert_eq!(*once.get_ref(), 7);
}

#[test]
fn ref_scan_policies() {
    assert!(StrongClosure::should_visit_strong() && !StrongClosure::should_visit_weak() && StrongClosure::should_discover_weak());
    assert!(RefUpdate::should_visit_strong() && RefUpdate::should_visit_weak() && !RefUpdate::should_discover_weak());
    assert!(All::should_visit_strong() && All::should_visit_weak() && !All::should_discover_weak());
    assert!(StrongOnly::should_visit_strong() && !StrongOnly::should_visit_weak() && !StrongOnly::should_discover_weak());
    assert!(!WeakOnly::should_visit_strong() && WeakOnly::should_visit_weak() && !WeakOnly::should_discover_weak());
}

#[test]
fn gc_byte_and_forwarding_word() {
    let low = GcByteLayout { has_gc_byte: true, gc_byte_offset: 0 };
    let high = GcByteLayout { has_gc_byte: true, gc_byte_offset: -1 };
    let odd = GcByteLayout { has_gc_byte: true, gc_byte_offset: 3 };
    let none = GcByteLayout { has_gc_byte: false, gc_byte_offset: 0 };
    assert_eq!(unifiable_gcbyte_forwarding_word_offset(&low), Some(0));
    assert_eq!(unifiable_gcbyte_forwarding_word_offset(&high), Some(-7));
    assert_eq!(unifiable_gcbyte_forwarding_word_offset(&odd), None);
    assert_eq!(unifiable_gcbyte_forwarding_word_offset(&none), None);

    let mut mem = MemoryRegion::new_zeroed(0x1000, 256);
    let object = 0x1040;
    GCByte::write(&low, &mut mem, object, 0xab);
    assert_eq!(GCByte::read(&low, &mem, object), 0xab);
    assert_eq!(mem.load_u8(object), 0xab);
    // The GC byte before the object: the highest byte of the word before it.
    assert_eq!(GCForwardingWord::get_object_status_word_address(&high, object, object - 8), object - 8);
    assert_eq!(GCForwardingWord::get_object_status_word_address(&low, object, object), object);
    GCForwardingWord::write(&high, &mut mem, object, object - 8, 0x1122_3344_5566_7788);
    assert_eq!(GCForwardingWord::read(&high, &mem, object, object - 8), 0x1122_3344_5566_7788);
    assert!(GCForwardingWord::compare_exchange(&high, &mut mem, object, object - 8, 0x1122_3344_5566_7788, 5));
    assert!(!GCForwardingWord::compare_exchange(&high, &mut mem, object, object - 8, 0x1122_3344_5566_7788, 6));
    assert_eq!(GCForwardingWord::read(&high, &mem, object, object - 8), 5);
}
