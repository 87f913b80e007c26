//! In-place minimum and maximum updates.
use vstd::prelude::*;
use vstd::std_specs::cmp::{PartialOrdIs, PartialOrdSpec};

verus! {

/// Replaces the value by a smaller one.
pub trait SetMin: Sized {
    /// Stores `v` when it is smaller than the current value; tells whether it did.
    fn setmin(&mut self, v: Self) -> bool;
}

/// Replaces the value by a larger one.
pub trait SetMax: Sized {
    /// Stores `v` when it is larger than the current value; tells whether it did.
    fn setmax(&mut self, v: Self) -> bool;
}

impl<T: PartialOrd> SetMin for T {
    fn setmin(&mut self, v: T) -> (changed: bool)
        ensures
            T::obeys_partial_cmp_spec() ==> {
                &&& changed == (*old(self)).is_gt(&v)
                &&& *final(self) == if changed { v } else { *old(self) }
            },
    {
        if *self > v {
            *self = v;
            true
        } else {
            false
        }
    }
}

impl<T: PartialOrd> SetMax for T {
    fn setmax(&mut self, v: T) -> (changed: bool)
        ensures
            T::obeys_partial_cmp_spec() ==> {
                &&& changed == (*old(self)).is_lt(&v)
                &&& *final(self) == if changed { v } else { *old(self) }
            },
    {
        if *self < v {
            *self = v;
            true
        } else {
            false
        }
    }
}

} // verus!
