//! An operator that applies a binary function to its two inputs.

use vstd::prelude::*;

verus! {

/// Applies a user-provided binary function to its inputs at each timestamp.
pub struct Apply2<F> {
    func: F,
}

impl<F> Apply2<F> {
    pub fn new(func: F) -> (r: Self)
        ensures
            r.func() == func,
    {
        Apply2 { func }
    }

    pub closed spec fn func(&self) -> F {
        self.func
    }

    pub fn name(&self) -> &'static str {
        "Apply2"
    }

    /// The function applied to this tick's inputs.
    pub fn eval<T1, T2, T3>(&self, i1: &T1, i2: &T2) -> (r: T3) where F: Fn(&T1, &T2) -> T3
        requires
            call_requires(self.func(), (i1, i2)),
        ensures
            call_ensures(self.func(), (i1, i2), r),
    {
        (self.func)(i1, i2)
    }
}

} // verus!
