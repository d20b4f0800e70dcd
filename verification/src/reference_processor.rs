//! Processing of soft, weak and phantom references: the candidates that the
//! VM reports are kept without duplicates; a scan keeps the references whose
//! referents survive, and queues for the VM those whose referents died.
//!
//! The collector decides what happens to each reference (it knows which
//! objects live and where they moved); the processor applies those decisions
//! to its tables.
use vstd::prelude::*;
use crate::address::Address;

verus! {

/// The null object reference.
pub const NULL_REFERENCE: Address = 0;

/// The strength of references that a processor handles.
#[derive(Clone, Copy, Debug, PartialEq, Eq, Structural)]
pub enum Semantics {
    SOFT,
    WEAK,
    PHANTOM,
}

/// What a scan does with a reference.
#[derive(Clone, Copy, Debug, PartialEq, Eq, Structural)]
pub enum RefDecision {
    /// The reference and its referent live: keep the (forwarded) reference.
    Keep(Address),
    /// The reference is dead, or its referent is null: drop it.
    Drop,
    /// The referent died: the referent is cleared and the (forwarded)
    /// reference is queued for the VM.
    Enqueue(Address),
}

/// The decision for a reference, from what the collector knows of it: whether
/// it lives, where it moved, its referent, whether the referent lives.
pub open spec fn decision_spec(reference_live: bool, new_reference: Address, old_referent: Address, referent_live: bool) -> RefDecision {
    if !reference_live {
        RefDecision::Drop
    } else if old_referent == NULL_REFERENCE {
        RefDecision::Drop
    } else if referent_live {
        RefDecision::Keep(new_reference)
    } else {
        RefDecision::Enqueue(new_reference)
    }
}

/// The decision for a reference, from what the collector knows of it.
pub fn process_reference_decision(reference_live: bool, new_reference: Address, old_referent: Address, referent_live: bool) -> (r: RefDecision)
    ensures
        r == decision_spec(reference_live, new_reference, old_referent, referent_live),
        !reference_live ==> r == RefDecision::Drop,
        r matches RefDecision::Keep(a) ==> a == new_reference && reference_live && old_referent != NULL_REFERENCE && referent_live,
        r matches RefDecision::Enqueue(a) ==> a == new_reference && reference_live && old_referent != NULL_REFERENCE && !referent_live,
{
    proof {
        lemma_decision_laws(reference_live, new_reference, old_referent, referent_live);
    }
    if !reference_live {
        return RefDecision::Drop;
    }
    if old_referent == NULL_REFERENCE {
        return RefDecision::Drop;
    }
    if referent_live {
        RefDecision::Keep(new_reference)
    } else {
        RefDecision::Enqueue(new_reference)
    }
}

/// What a scan decides of a reference: a dead reference, or one whose
/// referent is null, is dropped; a live reference with a referent is never
/// dropped, and is kept exactly when its referent lives and queued exactly
/// when its referent died, in both cases under its new address.
pub proof fn lemma_decision_laws(reference_live: bool, new_reference: Address, old_referent: Address, referent_live: bool)
    ensures
        !reference_live ==> decision_spec(reference_live, new_reference, old_referent, referent_live) == RefDecision::Drop,
        old_referent == NULL_REFERENCE ==> decision_spec(reference_live, new_reference, old_referent, referent_live) == RefDecision::Drop,
        decision_spec(reference_live, new_reference, old_referent, referent_live) == RefDecision::Drop
            <==> (!reference_live || old_referent == NULL_REFERENCE),
        decision_spec(reference_live, new_reference, old_referent, referent_live) matches RefDecision::Keep(a)
            ==> a == new_reference && reference_live && old_referent != NULL_REFERENCE && referent_live,
        decision_spec(reference_live, new_reference, old_referent, referent_live) matches RefDecision::Enqueue(a)
            ==> a == new_reference && reference_live && old_referent != NULL_REFERENCE && !referent_live,
        reference_live && old_referent != NULL_REFERENCE && referent_live
            ==> decision_spec(reference_live, new_reference, old_referent, referent_live) == RefDecision::Keep(new_reference),
        reference_live && old_referent != NULL_REFERENCE && !referent_live
            ==> decision_spec(reference_live, new_reference, old_referent, referent_live) == RefDecision::Enqueue(new_reference),
{
}

/// The references kept by the decisions `ds` for `refs`.
pub open spec fn kept(refs: Seq<Address>, ds: Seq<RefDecision>) -> Seq<Address>
    decreases refs.len(),
{
    if refs.len() == 0 || ds.len() == 0 {
        Seq::empty()
    } else {
        let prev = kept(refs.drop_last(), ds.drop_last());
        match ds.last() {
            RefDecision::Keep(n) => prev.push(n),
            _ => prev,
        }
    }
}

/// The references queued by the decisions `ds` for `refs`.
pub open spec fn queued(refs: Seq<Address>, ds: Seq<RefDecision>) -> Seq<Address>
    decreases refs.len(),
{
    if refs.len() == 0 || ds.len() == 0 {
        Seq::empty()
    } else {
        let prev = queued(refs.drop_last(), ds.drop_last());
        match ds.last() {
            RefDecision::Enqueue(n) => prev.push(n),
            _ => prev,
        }
    }
}

/// Each decision of `ds` is one that `decide` may give for the reference at the same index.
pub open spec fn decided_by<F: Fn(Address) -> RefDecision>(decide: F, refs: Seq<Address>, ds: Seq<RefDecision>) -> bool {
    &&& ds.len() == refs.len()
    &&& forall|i: int| 0 <= i < refs.len() ==> call_ensures(decide, (refs[i],), #[trigger] ds[i])
}

/// The values of `xs` mapped by `f`, one by one.
pub open spec fn mapped_by<F: Fn(Address) -> Address>(f: F, xs: Seq<Address>, ys: Seq<Address>) -> bool {
    &&& ys.len() == xs.len()
    &&& forall|i: int| 0 <= i < xs.len() ==> call_ensures(f, (xs[i],), #[trigger] ys[i])
}

/// `new` is `old` after a scan (in a nursery collection or not) whose decisions were `ds`.
pub open spec fn scanned_with<F: Fn(Address) -> RefDecision>(old: ReferenceProcessor, new: ReferenceProcessor, nursery: bool, decide: F, ds: Seq<RefDecision>) -> bool {
    let from = old.scan_from(nursery) as int;
    let scanned = old.references_spec().skip(from);
    &&& decided_by(decide, scanned, ds)
    &&& new.references_spec() == old.references_spec().take(from) + kept(scanned, ds)
    &&& new.enqueued_spec() == old.enqueued_spec() + queued(scanned, ds)
    &&& new.nursery_index_spec() == new.references_spec().len()
}

/// The references of one strength.
pub struct ReferenceProcessor {
    references: Vec<Address>,
    enqueued_references: Vec<Address>,
    nursery_index: usize,
    semantics: Semantics,
}

impl ReferenceProcessor {
    /// The candidate references.
    pub closed spec fn references_spec(&self) -> Seq<Address> {
        self.references@
    }

    /// The references to hand to the VM.
    pub closed spec fn enqueued_spec(&self) -> Seq<Address> {
        self.enqueued_references@
    }

    /// The index of the first reference added since the last scan.
    pub closed spec fn nursery_index_spec(&self) -> nat {
        self.nursery_index as nat
    }

    /// The strength of the references.
    pub closed spec fn semantics_spec(&self) -> Semantics {
        self.semantics
    }

    /// No candidate occurs twice, and the nursery index is within the candidates.
    pub open spec fn wf(&self) -> bool {
        &&& self.references_spec().no_duplicates()
        &&& self.nursery_index_spec() <= self.references_spec().len()
    }

    /// An empty processor for references of the given strength.
    pub fn new(semantics: Semantics) -> (r: Self)
        ensures
            r.references_spec().len() == 0,
            r.enqueued_spec().len() == 0,
            r.nursery_index_spec() == 0,
            r.semantics_spec() == semantics,
            r.wf(),
    {
        ReferenceProcessor {
            references: Vec::new(),
            enqueued_references: Vec::new(),
            nursery_index: 0,
            semantics,
        }
    }

    /// The strength of the references.
    pub fn semantics(&self) -> (r: Semantics)
        ensures
            r == self.semantics_spec(),
    {
        self.semantics
    }

    /// Add a candidate reference, unless it is a candidate already.
    pub fn add_candidate(&mut self, reff: Address, _referent: Address)
        ensures
            old(self).references_spec().contains(reff) ==> *final(self) == *old(self),
            !old(self).references_spec().contains(reff) ==> final(self).references_spec() == old(self).references_spec().push(reff),
            final(self).enqueued_spec() == old(self).enqueued_spec(),
            final(self).nursery_index_spec() == old(self).nursery_index_spec(),
            final(self).semantics_spec() == old(self).semantics_spec(),
            old(self).wf() ==> final(self).wf(),
    {
        let mut i: usize = 0;
        while i < self.references.len()
            invariant
                i <= self.references@.len(),
                forall|j: int| 0 <= j < i ==> self.references@[j] != reff,
            decreases self.references@.len() - i,
        {
            if self.references[i] == reff {
                return;
            }
            i = i + 1;
        }
        self.references.push(reff);
        proof {
            assert(!old(self).references@.contains(reff));
            if old(self).wf() {
                assert forall|a: int, b: int| 0 <= a < b < self.references@.len() implies self.references@[a] != self.references@[b] by {
                    if b == self.references@.len() - 1 {
                        assert(old(self).references@[a] == self.references@[a]);
                    }
                }
            }
        }
    }

    /// Hand the queued references to the VM: they are returned, and the queue is emptied.
    pub fn enqueue(&mut self) -> (r: Vec<Address>)
        ensures
            r@ == old(self).enqueued_spec(),
            final(self).enqueued_spec().len() == 0,
            final(self).references_spec() == old(self).references_spec(),
            final(self).nursery_index_spec() == old(self).nursery_index_spec(),
            final(self).semantics_spec() == old(self).semantics_spec(),
            old(self).wf() ==> final(self).wf(),
    {
        let mut queued: Vec<Address> = Vec::new();
        std::mem::swap(&mut queued, &mut self.enqueued_references);
        queued
    }

    /// Forward every candidate and queued reference with `forward_reference`
    /// (which forwards the reference and its referent).
    pub fn forward<F: Fn(Address) -> Address>(&mut self, forward_reference: F)
        requires
            forall|a: Address| call_requires(forward_reference, (a,)),
        ensures
            mapped_by(forward_reference, old(self).references_spec(), final(self).references_spec()),
            mapped_by(forward_reference, old(self).enqueued_spec(), final(self).enqueued_spec()),
            final(self).nursery_index_spec() == old(self).nursery_index_spec(),
            final(self).semantics_spec() == old(self).semantics_spec(),
    {
        let mut i: usize = 0;
        while i < self.references.len()
            invariant
                forall|a: Address| call_requires(forward_reference, (a,)),
                self.references@.len() == old(self).references@.len(),
                i <= self.references@.len(),
                forall|j: int| 0 <= j < i ==> call_ensures(forward_reference, (old(self).references@[j],), #[trigger] self.references@[j]),
                forall|j: int| i <= j < self.references@.len() ==> self.references@[j] == old(self).references@[j],
                self.enqueued_references@ == old(self).enqueued_references@,
                self.nursery_index == old(self).nursery_index,
                self.semantics == old(self).semantics,
            decreases self.references@.len() - i,
        {
            let reference = self.references[i];
            let n = forward_reference(reference);
            self.references.set(i, n);
            i = i + 1;
        }
        let mut k: usize = 0;
        while k < self.enqueued_references.len()
            invariant
                forall|a: Address| call_requires(forward_reference, (a,)),
                self.enqueued_references@.len() == old(self).enqueued_references@.len(),
                k <= self.enqueued_references@.len(),
                forall|j: int| 0 <= j < k ==> call_ensures(forward_reference, (old(self).enqueued_references@[j],), #[trigger] self.enqueued_references@[j]),
                forall|j: int| k <= j < self.enqueued_references@.len() ==> self.enqueued_references@[j] == old(self).enqueued_references@[j],
                mapped_by(forward_reference, old(self).references@, self.references@),
                self.nursery_index == old(self).nursery_index,
                self.semantics == old(self).semantics,
            decreases self.enqueued_references@.len() - k,
        {
            let reference = self.enqueued_references[k];
            let n = forward_reference(reference);
            self.enqueued_references.set(k, n);
            k = k + 1;
        }
    }

    /// The first index that a scan looks at: the nursery index in a nursery
    /// collection, else 0.
    pub open spec fn scan_from(&self, nursery: bool) -> nat {
        if nursery { self.nursery_index_spec() } else { 0 }
    }

    /// Scan the references from the nursery index (in a nursery collection)
    /// or from the start. To retain (soft references that must survive), the
    /// references scanned are returned so that the collector keeps their
    /// referents alive, and nothing changes. Otherwise `decide` says what
    /// happens to each scanned reference: kept ones stay (forwarded), in
    /// order; queued ones join the queue; the nursery index moves to the end.
    pub fn scan<F: Fn(Address) -> RefDecision>(&mut self, nursery: bool, retain: bool, decide: F) -> (r: Vec<Address>)
        requires
            old(self).wf(),
            forall|a: Address| call_requires(decide, (a,)),
        ensures
            retain ==> r@ == old(self).references_spec().skip(old(self).scan_from(nursery) as int) && *final(self) == *old(self),
            !retain ==> r@.len() == 0 && exists|ds: Seq<RefDecision>| #[trigger] scanned_with(*old(self), *final(self), nursery, decide, ds),
            final(self).semantics_spec() == old(self).semantics_spec(),
    {
        let from_index = if nursery { self.nursery_index } else { 0 };
        let ghost scanned = self.references@.skip(from_index as int);
        if retain {
            let mut retained: Vec<Address> = Vec::new();
            let mut i = from_index;
            while i < self.references.len()
                invariant
                    from_index <= i <= self.references@.len(),
                    retained@ == self.references@.subrange(from_index as int, i as int),
                decreases self.references@.len() - i,
            {
                retained.push(self.references[i]);
                i = i + 1;
                proof {
                    assert(retained@ =~= self.references@.subrange(from_index as int, i as int));
                }
            }
            proof {
                assert(retained@ =~= self.references@.skip(from_index as int));
            }
            return retained;
        }
        let ghost old_refs = self.references@;
        let ghost old_enq = self.enqueued_references@;
        let ghost mut ds: Seq<RefDecision> = Seq::empty();
        let mut to_index = from_index;
        let mut i = from_index;
        while i < self.references.len()
            invariant
                forall|a: Address| call_requires(decide, (a,)),
                from_index <= to_index <= i <= self.references@.len(),
                self.references@.len() == old_refs.len(),
                scanned == old_refs.skip(from_index as int),
                forall|j: int| i <= j < old_refs.len() ==> self.references@[j] == old_refs[j],
                self.references@.take(from_index as int) == old_refs.take(from_index as int),
                ds.len() == i - from_index,
                decided_by(decide, scanned.take(i - from_index), ds),
                self.references@.subrange(from_index as int, to_index as int) == kept(scanned.take(i - from_index), ds),
                self.enqueued_references@ == old_enq + queued(scanned.take(i - from_index), ds),
                self.semantics == old(self).semantics,
            decreases self.references@.len() - i,
        {
            let reference = self.references[i];
            let d = decide(reference);
            proof {
                let k = i - from_index;
                assert(scanned.take(k + 1).drop_last() =~= scanned.take(k));
                assert(scanned[k] == reference);
                assert(ds.push(d).drop_last() =~= ds);
            }
            let ghost prev_kept = self.references@.subrange(from_index as int, to_index as int);
            match d {
                RefDecision::Keep(n) => {
                    self.references.set(to_index, n);
                    proof {
                        assert(self.references@.subrange(from_index as int, to_index + 1) =~= prev_kept.push(n));
                    }
                    to_index = to_index + 1;
                },
                RefDecision::Drop => {},
                RefDecision::Enqueue(n) => {
                    self.enqueued_references.push(n);
                },
            }
            proof {
                ds = ds.push(d);
                let k = i + 1 - from_index;
                assert forall|j: int| 0 <= j < k implies call_ensures(decide, (scanned.take(k)[j],), #[trigger] ds[j]) by {
                    if j < k - 1 {
                        assert(scanned.take(k)[j] == scanned.take(k - 1)[j]);
                    }
                }
                assert(self.references@.take(from_index as int) =~= old_refs.take(from_index as int));
            }
            i = i + 1;
        }
        proof {
            assert(scanned.take(i - from_index) =~= scanned);
        }
        self.references.truncate(to_index);
        self.nursery_index = to_index;
        proof {
            assert(self.references@ =~= old_refs.take(from_index as int) + kept(scanned, ds));
            assert(scanned_with(*old(self), *self, nursery, decide, ds));
        }
        Vec::new()
    }
}

/// Adding a candidate twice is the same as adding it once: the candidates
/// stay free of duplicates.
pub proof fn lemma_add_candidate_idempotent(refs: Seq<Address>, reff: Address)
    requires
        refs.no_duplicates(),
    ensures
        ({
            let once = if refs.contains(reff) { refs } else { refs.push(reff) };
            let twice = if once.contains(reff) { once } else { once.push(reff) };
            &&& once.no_duplicates()
            &&& once.contains(reff)
            &&& twice == once
        }),
{
    if !refs.contains(reff) {
        let once = refs.push(reff);
        assert(once[refs.len() as int] == reff);
        assert forall|a: int, b: int| 0 <= a < b < once.len() implies once[a] != once[b] by {
            if b == refs.len() {
                assert(once[a] == refs[a]);
            }
        }
    }
}

/// The reference processors of the three strengths.
pub struct ReferenceProcessors {
    soft: ReferenceProcessor,
    weak: ReferenceProcessor,
    phantom: ReferenceProcessor,
}

impl ReferenceProcessors {
    /// The processor of soft references.
    pub closed spec fn soft_spec(&self) -> ReferenceProcessor {
        self.soft
    }

    /// The processor of weak references.
    pub closed spec fn weak_spec(&self) -> ReferenceProcessor {
        self.weak
    }

    /// The processor of phantom references.
    pub closed spec fn phantom_spec(&self) -> ReferenceProcessor {
        self.phantom
    }

    /// The processors are well formed and handle their own strength.
    pub open spec fn wf(&self) -> bool {
        &&& self.soft_spec().wf() && self.soft_spec().semantics_spec() == Semantics::SOFT
        &&& self.weak_spec().wf() && self.weak_spec().semantics_spec() == Semantics::WEAK
        &&& self.phantom_spec().wf() && self.phantom_spec().semantics_spec() == Semantics::PHANTOM
    }

    /// Empty processors.
    pub fn new() -> (r: Self)
        ensures
            r.wf(),
            r.soft_spec().references_spec().len() == 0,
            r.weak_spec().references_spec().len() == 0,
            r.phantom_spec().references_spec().len() == 0,
    {
        ReferenceProcessors {
            soft: ReferenceProcessor::new(Semantics::SOFT),
            weak: ReferenceProcessor::new(Semantics::WEAK),
            phantom: ReferenceProcessor::new(Semantics::PHANTOM),
        }
    }

    /// The processor of the given strength.
    pub fn get(&self, semantics: Semantics) -> (r: &ReferenceProcessor)
        ensures
            semantics == Semantics::SOFT ==> *r == self.soft_spec(),
            semantics == Semantics::WEAK ==> *r == self.weak_spec(),
            semantics == Semantics::PHANTOM ==> *r == self.phantom_spec(),
    {
        match semantics {
            Semantics::SOFT => &self.soft,
            Semantics::WEAK => &self.weak,
            Semantics::PHANTOM => &self.phantom,
        }
    }

    /// Add a soft reference candidate.
    pub fn add_soft_candidate(&mut self, reff: Address, referent: Address)
        ensures
            !old(self).soft_spec().references_spec().contains(reff)
                ==> final(self).soft_spec().references_spec() == old(self).soft_spec().references_spec().push(reff),
            old(self).soft_spec().references_spec().contains(reff) ==> final(self).soft_spec() == old(self).soft_spec(),
            final(self).weak_spec() == old(self).weak_spec(),
            final(self).phantom_spec() == old(self).phantom_spec(),
            old(self).wf() ==> final(self).wf(),
    {
        self.soft.add_candidate(reff, referent);
    }

    /// Add a weak reference candidate.
    pub fn add_weak_candidate(&mut self, reff: Address, referent: Address)
        ensures
            !old(self).weak_spec().references_spec().contains(reff)
                ==> final(self).weak_spec().references_spec() == old(self).weak_spec().references_spec().push(reff),
            old(self).weak_spec().references_spec().contains(reff) ==> final(self).weak_spec() == old(self).weak_spec(),
            final(self).soft_spec() == old(self).soft_spec(),
            final(self).phantom_spec() == old(self).phantom_spec(),
            old(self).wf() ==> final(self).wf(),
    {
        self.weak.add_candidate(reff, referent);
    }

    /// Add a phantom reference candidate.
    pub fn add_phantom_candidate(&mut self, reff: Address, referent: Address)
        ensures
            !old(self).phantom_spec().references_spec().contains(reff)
                ==> final(self).phantom_spec().references_spec() == old(self).phantom_spec().references_spec().push(reff),
            old(self).phantom_spec().references_spec().contains(reff) ==> final(self).phantom_spec() == old(self).phantom_spec(),
            final(self).soft_spec() == old(self).soft_spec(),
            final(self).weak_spec() == old(self).weak_spec(),
            old(self).wf() ==> final(self).wf(),
    {
        self.phantom.add_candidate(reff, referent);
    }

    /// Hand the queued references of each strength to the VM (soft, weak,
    /// phantom): they are returned, and the queues are emptied.
    pub fn enqueue_refs(&mut self) -> (r: (Vec<Address>, Vec<Address>, Vec<Address>))
        requires
            old(self).wf(),
        ensures
            r.0@ == old(self).soft_spec().enqueued_spec(),
            r.1@ == old(self).weak_spec().enqueued_spec(),
            r.2@ == old(self).phantom_spec().enqueued_spec(),
            final(self).soft_spec().enqueued_spec().len() == 0,
            final(self).weak_spec().enqueued_spec().len() == 0,
            final(self).phantom_spec().enqueued_spec().len() == 0,
            final(self).soft_spec().references_spec() == old(self).soft_spec().references_spec(),
            final(self).weak_spec().references_spec() == old(self).weak_spec().references_spec(),
            final(self).phantom_spec().references_spec() == old(self).phantom_spec().references_spec(),
            final(self).wf(),
    {
        let s = self.soft.enqueue();
        let w = self.weak.enqueue();
        let p = self.phantom.enqueue();
        (s, w, p)
    }

    /// Forward the references of every strength with `forward_reference`.
    pub fn forward_refs<F: Fn(Address) -> Address>(&mut self, forward_reference: F)
        requires
            forall|a: Address| call_requires(forward_reference, (a,)),
        ensures
            mapped_by(forward_reference, old(self).soft_spec().references_spec(), final(self).soft_spec().references_spec()),
            mapped_by(forward_reference, old(self).weak_spec().references_spec(), final(self).weak_spec().references_spec()),
            mapped_by(forward_reference, old(self).phantom_spec().references_spec(), final(self).phantom_spec().references_spec()),
            mapped_by(forward_reference, old(self).soft_spec().enqueued_spec(), final(self).soft_spec().enqueued_spec()),
            mapped_by(forward_reference, old(self).weak_spec().enqueued_spec(), final(self).weak_spec().enqueued_spec()),
            mapped_by(forward_reference, old(self).phantom_spec().enqueued_spec(), final(self).phantom_spec().enqueued_spec()),
    {
        self.soft.forward(&forward_reference);
        self.weak.forward(&forward_reference);
        self.phantom.forward(&forward_reference);
    }

    /// Scan the soft and weak references with `decide` (see `ReferenceProcessor::scan`).
    pub fn scan_weak_refs<F: Fn(Address) -> RefDecision>(&mut self, nursery: bool, decide: F)
        requires
            old(self).wf(),
            forall|a: Address| call_requires(decide, (a,)),
        ensures
            final(self).phantom_spec() == old(self).phantom_spec(),
            final(self).soft_spec().semantics_spec() == Semantics::SOFT,
            final(self).weak_spec().semantics_spec() == Semantics::WEAK,
            exists|ds: Seq<RefDecision>| #[trigger] scanned_with(old(self).soft_spec(), final(self).soft_spec(), nursery, decide, ds),
            exists|ds: Seq<RefDecision>| #[trigger] scanned_with(old(self).weak_spec(), final(self).weak_spec(), nursery, decide, ds),
    {
        let _ = self.soft.scan(nursery, false, &decide);
        let _ = self.weak.scan(nursery, false, &decide);
        proof {
            let ds1 = choose|ds: Seq<RefDecision>| #[trigger] scanned_with(old(self).soft_spec(), self.soft_spec(), nursery, &decide, ds);
            assert(scanned_with(old(self).soft_spec(), self.soft_spec(), nursery, decide, ds1));
            let ds2 = choose|ds: Seq<RefDecision>| #[trigger] scanned_with(old(self).weak_spec(), self.weak_spec(), nursery, &decide, ds);
            assert(scanned_with(old(self).weak_spec(), self.weak_spec(), nursery, decide, ds2));
        }
    }

    /// The soft references whose referents the collector must keep alive
    /// (none in an emergency collection, when soft references are not retained).
    pub fn scan_soft_refs(&mut self, nursery: bool, emergency: bool) -> (r: Vec<Address>)
        requires
            old(self).wf(),
        ensures
            !emergency ==> r@ == old(self).soft_spec().references_spec().skip(old(self).soft_spec().scan_from(nursery) as int),
            emergency ==> r@.len() == 0,
            *final(self) == *old(self),
    {
        if !emergency {
            let keep_all = |a: Address| -> (d: RefDecision) { RefDecision::Keep(a) };
            self.soft.scan(nursery, true, keep_all)
        } else {
            Vec::new()
        }
    }

    /// Scan the phantom references with `decide` (see `ReferenceProcessor::scan`).
    pub fn scan_phantom_refs<F: Fn(Address) -> RefDecision>(&mut self, nursery: bool, decide: F)
        requires
            old(self).wf(),
            forall|a: Address| call_requires(decide, (a,)),
        ensures
            final(self).soft_spec() == old(self).soft_spec(),
            final(self).weak_spec() == old(self).weak_spec(),
            final(self).phantom_spec().semantics_spec() == Semantics::PHANTOM,
            exists|ds: Seq<RefDecision>| #[trigger] scanned_with(old(self).phantom_spec(), final(self).phantom_spec(), nursery, decide, ds),
    {
        let _ = self.phantom.scan(nursery, false, decide);
    }
}

/// The work packet that scans soft references.
pub struct SoftRefProcessing {}

impl SoftRefProcessing {
    /// A new work packet.
    pub fn new() -> (r: Self) {
        SoftRefProcessing {}
    }
}

/// The work packet that scans weak references.
pub struct WeakRefProcessing {}

impl WeakRefProcessing {
    /// A new work packet.
    pub fn new() -> (r: Self) {
        WeakRefProcessing {}
    }
}

/// The work packet that scans phantom references.
pub struct PhantomRefProcessing {}

impl PhantomRefProcessing {
    /// A new work packet.
    pub fn new() -> (r: Self) {
        PhantomRefProcessing {}
    }
}

/// The work packet that forwards references.
pub struct RefForwarding {}

impl RefForwarding {
    /// A new work packet.
    pub fn new() -> (r: Self) {
        RefForwarding {}
    }
}

/// The work packet that hands queued references to the VM.
pub struct RefEnqueue {}

impl RefEnqueue {
    /// A new work packet.
    pub fn new() -> (r: Self) {
        RefEnqueue {}
    }
}

} // verus!
