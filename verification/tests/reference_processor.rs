use mmtk::reference_processor::{
    process_reference_decision, RefDecision, ReferenceProcessor, ReferenceProcessors, Semantics, NULL_REFERENCE,
};

#[test]
fn decisions() {
    assert_eq!(process_reference_decision(false, 0x100, 0x200, true), RefDecision::Drop);
    assert_eq!(process_reference_decision(true, 0x100, NULL_REFERENCE, true), RefDecision::Drop);
    assert_eq!(process_reference_decision(true, 0x100, 0x200, true), RefDecision::Keep(0x100));
    assert_eq!(process_reference_decision(true, 0x100, 0x200, false), RefDecision::Enqueue(0x100));
}

fn decide(r: u64) -> RefDecision {
    match r {
        0x100 => RefDecision::Keep(0x1100),
        0x200 => RefDecision::Drop,
        _ => RefDecision::Enqueue(r + 0x1000),
    }
}

#[test]
fn candidates_are_added_once() {
    let mut p = ReferenceProcessor::new(Semantics::WEAK);
    assert_eq!(p.semantics(), Semantics::WEAK);
    p.add_candidate(0x100, 0x10);
    p.add_candidate(0x200, 0x20);
    p.add_candidate(0x100, 0x10);
    assert_eq!(p.scan(false, true, decide), vec![0x100, 0x200]);
}

#[test]
fn scan_keeps_drops_and_enqueues() {
    let mut p = ReferenceProcessor::new(Semantics::SOFT);
    for r in [0x100, 0x200, 0x300] {
        p.add_candidate(r, r + 1);
    }
    assert!(p.scan(false, false, decide).is_empty());
    assert_eq!(p.enqueue(), vec![0x1300]);
    assert!(p.enqueue().is_empty());
    assert_eq!(p.scan(false, true, decide), vec![0x1100]);
    // A nursery scan looks only at the references added since the last scan.
    p.add_candidate(0x400, 0x401);
    assert_eq!(p.scan(true, true, decide), vec![0x400]);
    assert_eq!(p.scan(false, true, decide), vec![0x1100, 0x400]);
}

#[test]
fn forward_maps_references() {
    let mut p = ReferenceProcessor::new(Semantics::PHANTOM);
    p.add_candidate(0x100, 0x1);
    p.add_candidate(0x300, 0x3);
    p.scan(false, false, decide);
    p.forward(|r: u64| r + 8);
    assert_eq!(p.scan(false, true, decide), vec![0x1108]);
    assert_eq!(p.enqueue(), vec![0x1308]);
}

#[test]
fn processors_by_strength() {
    let mut ps = ReferenceProcessors::new();
    ps.add_soft_candidate(0x100, 0x1);
    ps.add_weak_candidate(0x300, 0x3);
    ps.add_phantom_candidate(0x500, 0x5);
    assert_eq!(ps.get(Semantics::SOFT).semantics(), Semantics::SOFT);
    assert_eq!(ps.get(Semantics::PHANTOM).semantics(), Semantics::PHANTOM);
    assert_eq!(ps.scan_soft_refs(false, false), vec![0x100]);
    assert!(ps.scan_soft_refs(false, true).is_empty());
    ps.scan_weak_refs(false, decide);
    ps.scan_phantom_refs(false, decide);
    let (soft, weak, phantom) = ps.enqueue_refs();
    assert!(soft.is_empty());
    assert_eq!(weak, vec![0x1300]);
    assert_eq!(phantom, vec![0x1500]);
    ps.forward_refs(|r: u64| r + 8);
    assert_eq!(ps.scan_soft_refs(false, false), vec![0x1108]);
}
