use vstd::prelude::*;
use vstd::pervasive::cloned;
use vstd::std_specs::cmp::PartialEqSpec;
use vstd::std_specs::cmp::PartialEqSpecImpl;

verus! {

/// One weighted alternative: a destination state and the weight it was
/// declared with. A choice is not changed once it is made.
#[derive(Debug, Eq)]
pub struct Choice<T> {
    pub weight: i32,
    pub value: T,
}

impl<T: PartialEq> PartialEq for Choice<T> {
    /// Two choices are equal when their weights and their destinations are.
    fn eq(&self, other: &Self) -> (equal: bool) {
        self.weight == other.weight && self.value == other.value
    }
}

impl<T: PartialEq> PartialEqSpecImpl for Choice<T> {
    open spec fn obeys_eq_spec() -> bool {
        T::obeys_eq_spec()
    }

    open spec fn eq_spec(&self, other: &Self) -> bool {
        self.weight == other.weight && self.value.eq_spec(&other.value)
    }
}

impl<T: Clone> Clone for Choice<T> {
    /// A choice of the same weight, to a clone of the destination.
    fn clone(&self) -> (copy: Self)
        ensures
            copy.weight == self.weight,
            cloned(self.value, copy.value),
    {
        Choice { weight: self.weight, value: self.value.clone() }
    }
}

} // verus!
