//! Things whose order does not matter.

use vstd::prelude::*;

verus! {

/// Something of which only the contents count, not the order.
#[derive(Clone, Debug, PartialEq, Eq)]
pub struct Unordered<T>(pub T);

impl<T: View> View for Unordered<T> {
    type V = T::V;

    open spec fn view(&self) -> T::V {
        self.0@
    }
}

} // verus!
