use vstd::prelude::*;

use crate::iterators::StorageIterator;

verus! {

/// Merges two iterators, preferring the first where both hold a key.
pub struct TwoMergeIterator<L: StorageIterator, R: StorageIterator> {
    lhs: L,
    rhs: R,
}

} // verus!
