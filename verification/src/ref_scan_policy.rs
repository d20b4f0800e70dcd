//! The policies of reference scanning: which reference fields of an object
//! the VM should visit when MMTk asks it to scan the object, and whether it
//! should discover weak references.
use vstd::prelude::*;

verus! {

/// A policy of reference scanning.
pub trait RefScanPolicy {
    /// Visit the fields that hold strong references.
    fn should_visit_strong() -> bool;

    /// Visit the fields that hold weak references.
    fn should_visit_weak() -> bool;

    /// Record the weak reference fields for later processing.
    fn should_discover_weak() -> bool;
}

/// An object is scanned during the strong transitive closure: visit the
/// strong fields, and discover (do not visit) the weak ones.
pub struct StrongClosure;

impl RefScanPolicy for StrongClosure {
    fn should_visit_strong() -> (r: bool)
        ensures
            r,
    {
        true
    }

    fn should_visit_weak() -> (r: bool)
        ensures
            !r,
    {
        false
    }

    fn should_discover_weak() -> (r: bool)
        ensures
            r,
    {
        true
    }
}

/// An object is scanned to update its references after objects moved: visit
/// every reference field, strong or weak.
pub struct RefUpdate;

impl RefScanPolicy for RefUpdate {
    fn should_visit_strong() -> (r: bool)
        ensures
            r,
    {
        true
    }

    fn should_visit_weak() -> (r: bool)
        ensures
            r,
    {
        true
    }

    fn should_discover_weak() -> (r: bool)
        ensures
            !r,
    {
        false
    }
}

/// Visit all fields, strong and weak.
pub struct All;

impl RefScanPolicy for All {
    fn should_visit_strong() -> (r: bool)
        ensures
            r,
    {
        true
    }

    fn should_visit_weak() -> (r: bool)
        ensures
            r,
    {
        true
    }

    fn should_discover_weak() -> (r: bool)
        ensures
            !r,
    {
        false
    }
}

/// Visit the strong fields only, discovering no weak reference.
pub struct StrongOnly;

impl RefScanPolicy for StrongOnly {
    fn should_visit_strong() -> (r: bool)
        ensures
            r,
    {
        true
    }

    fn should_visit_weak() -> (r: bool)
        ensures
            !r,
    {
        false
    }

    fn should_discover_weak() -> (r: bool)
        ensures
            !r,
    {
        false
    }
}

/// Visit the weak fields only.
pub struct WeakOnly;

impl RefScanPolicy for WeakOnly {
    fn should_visit_strong() -> (r: bool)
        ensures
            !r,
    {
        false
    }

    fn should_visit_weak() -> (r: bool)
        ensures
            r,
    {
        true
    }

    fn should_discover_weak() -> (r: bool)
        ensures
            !r,
    {
        false
    }
}

} // verus!
