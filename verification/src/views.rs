//! Lists seen as lists of plain values.

use vstd::prelude::*;

verus! {

/// What the items of a list hold, as plain values, in the order of the list.
pub open spec fn views<T: View>(items: Seq<T>) -> Seq<T::V> {
    Seq::new(items.len(), |i: int| items[i]@)
}

} // verus!
