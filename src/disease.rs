//! The interface of a transmissible disease.
use vstd::prelude::*;

verus! {

/// A disease model, for users of the library to implement.
pub trait Disease {
    /// Whether a contact passes the disease on.
    fn will_infect(&self) -> bool;

    /// A variant of this disease.
    fn mutate(&self) -> Self where Self: Sized;
}

} // verus!
