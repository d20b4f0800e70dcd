use mmtk::memory::MemoryRegion;
use mmtk::metadata::global::{MetadataSpec, ObjectMemory};
use mmtk::metadata::header_metadata::HeaderMetadataSpec;
use mmtk::metadata::side_metadata::spec::{SideMetadataOffset, SideMetadataSpec};
use mmtk::object_forwarding::{
    clear_forwarding_bits, forwarding_bits_offset_in_forwarding_pointer, is_being_forwarded, is_forwarded,
    is_forwarded_or_being_forwarded, read_forwarding_pointer, state_is_being_forwarded,
    state_is_forwarded_or_being_forwarded, ForwardingAttempt, ForwardingSpecs, BEING_FORWARDED, FORWARDED,
    FORWARDING_NOT_TRIGGERED_YET,
};

const HEAP: u64 = 0x10_0000;
const SIDE_OFFSET: u64 = 0x2_0000;

/// Forwarding bits on the side (2 bits per word), forwarding pointer in the header word.
fn side_specs() -> ForwardingSpecs {
    ForwardingSpecs {
        bits: MetadataSpec::OnSide(SideMetadataSpec {
            name: "FORWARDING_BITS",
            is_global: false,
            offset: SideMetadataOffset::addr(SIDE_OFFSET),
            log_num_of_bits: 1,
            log_bytes_in_region: 3,
        }),
        pointer: MetadataSpec::InHeader(HeaderMetadataSpec { bit_offset: 0, num_of_bits: 64 }),
    }
}

/// Forwarding bits in the low bits of the forwarding word.
fn header_specs() -> ForwardingSpecs {
    ForwardingSpecs {
        bits: MetadataSpec::InHeader(HeaderMetadataSpec { bit_offset: 0, num_of_bits: 2 }),
        pointer: MetadataSpec::InHeader(HeaderMetadataSpec { bit_offset: 0, num_of_bits: 64 }),
    }
}

fn memory() -> ObjectMemory {
    ObjectMemory {
        heap: MemoryRegion::new_zeroed(HEAP, 4096),
        side: MemoryRegion::new_zeroed(SIDE_OFFSET + (HEAP >> 5), 256),
    }
}

#[test]
fn states() {
    assert!(!state_is_forwarded_or_being_forwarded(FORWARDING_NOT_TRIGGERED_YET));
    assert!(state_is_forwarded_or_being_forwarded(BEING_FORWARDED));
    assert!(state_is_forwarded_or_being_forwarded(FORWARDED));
    assert!(state_is_being_forwarded(BEING_FORWARDED));
    assert!(!state_is_being_forwarded(FORWARDED));
}

#[test]
fn bits_offset_in_pointer() {
    assert_eq!(forwarding_bits_offset_in_forwarding_pointer(&side_specs()), None);
    assert_eq!(forwarding_bits_offset_in_forwarding_pointer(&header_specs()), Some(0));
    let far = ForwardingSpecs {
        bits: MetadataSpec::InHeader(HeaderMetadataSpec { bit_offset: 64, num_of_bits: 2 }),
        pointer: MetadataSpec::InHeader(HeaderMetadataSpec { bit_offset: 0, num_of_bits: 64 }),
    };
    assert_eq!(forwarding_bits_offset_in_forwarding_pointer(&far), None);
}

fn one_winner_then_forward(specs: ForwardingSpecs) {
    let mut mem = memory();
    let object = HEAP + 0x40;
    let copy = HEAP + 0x800;
    let first = ForwardingAttempt::attempt(&specs, &mut mem, object);
    assert!(is_being_forwarded(&specs, &mem, object));
    assert!(is_forwarded_or_being_forwarded(&specs, &mem, object));
    let second = ForwardingAttempt::attempt(&specs, &mut mem, object);
    let won = match first {
        ForwardingAttempt::Won(w) => w,
        ForwardingAttempt::Lost(_) => panic!("the first attempt wins"),
    };
    let lost = match second {
        ForwardingAttempt::Lost(l) => l,
        ForwardingAttempt::Won(_) => panic!("only one attempt wins"),
    };
    // While the object is being forwarded, the loser has to wait.
    assert_eq!(lost.spin_and_get_forwarded_object(&specs, &mem), None);
    assert_eq!(won.forward_object(&specs, &mut mem, copy), copy);
    assert!(is_forwarded(&specs, &mem, object));
    assert!(!is_being_forwarded(&specs, &mem, object));
    assert_eq!(read_forwarding_pointer(&specs, &mem, object), copy);
    assert_eq!(lost.spin_and_get_forwarded_object(&specs, &mem), Some(copy));
    // A neighbour is untouched.
    assert!(!is_forwarded_or_being_forwarded(&specs, &mem, object + 8));
}

#[test]
fn forwarding_with_side_bits() {
    one_winner_then_forward(side_specs());
}

#[test]
fn forwarding_with_bits_in_the_forwarding_word() {
    one_winner_then_forward(header_specs());
}

#[test]
fn revert_lets_the_next_attempt_win() {
    let specs = side_specs();
    let mut mem = memory();
    let object = HEAP + 0x80;
    match ForwardingAttempt::attempt(&specs, &mut mem, object) {
        ForwardingAttempt::Won(w) => w.revert(&specs, &mut mem),
        ForwardingAttempt::Lost(_) => panic!("the first attempt wins"),
    }
    assert!(!is_forwarded_or_being_forwarded(&specs, &mem, object));
    match ForwardingAttempt::attempt(&specs, &mut mem, object) {
        ForwardingAttempt::Won(_) => {}
        ForwardingAttempt::Lost(_) => panic!("after a revert the next attempt wins"),
    }
    clear_forwarding_bits(&specs, &mut mem, object);
    assert!(!is_being_forwarded(&specs, &mem, object));
}
