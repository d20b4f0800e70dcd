//! Small utilities: the minimum of two numbers, and a value that is
//! initialized once.
use vstd::prelude::*;

verus! {

/// The smaller of `a` and `b`.
pub fn min_of_usize(a: usize, b: usize) -> (r: usize)
    ensures
        r == if a > b { b } else { a },
{
    if a > b {
        b
    } else {
        a
    }
}

/// A value that is created by its initialization function once, on the
/// first call of `initialize_once`, and read after that.
pub struct InitializeOnce<T> {
    v: Option<T>,
}

impl<T> InitializeOnce<T> {
    /// The value, once it is initialized.
    pub closed spec fn value(&self) -> Option<T> {
        self.v
    }

    /// A value not initialized yet.
    pub fn new() -> (r: Self)
        ensures
            r.value() is None,
    {
        InitializeOnce { v: None }
    }

    /// Initialize the value with `init_fn`, unless it is initialized: the
    /// function is called at most once over all calls.
    pub fn initialize_once<F: FnOnce() -> T>(&mut self, init_fn: F)
        requires
            old(self).value() is None ==> init_fn.requires(()),
        ensures
            old(self).value() is Some ==> final(self).value() == old(self).value(),
            old(self).value() is None ==> final(self).value() is Some && init_fn.ensures(
                (),
                final(self).value()->0,
            ),
    {
        if self.v.is_none() {
            self.v = Some(init_fn());
        }
    }

    /// The value is initialized.
    pub fn is_completed(&self) -> (r: bool)
        ensures
            r == self.value() is Some,
    {
        self.v.is_some()
    }

    /// The value, which must be initialized.
    pub fn get_ref(&self) -> (r: &T)
        requires
            self.value() is Some,
        ensures
            *r == self.value()->0,
    {
        self.v.as_ref().unwrap()
    }
}

} // verus!
