//! Iterators over key-value pairs in key order, and merging several of them.
pub mod merge_iterator;
pub mod two_merge_iterator;

use vstd::prelude::*;

use crate::key::KeySlice;

verus! {

/// `anyhow::Error`, the error a failed step carries; passed through, never
/// looked into.
#[verifier::external_type_specification]
#[verifier::external_body]
pub struct ExError(anyhow::Error);

/// `anyhow::Error::msg`: an error that carries `message`. Nothing is claimed
/// of the error it builds.
#[verifier::external_body]
pub(crate) fn error_msg(message: &'static str) -> anyhow::Error {
    anyhow::Error::msg(message)
}

/// A sequence of key-value pairs with strictly ascending keys.
pub open spec fn strictly_sorted(s: Seq<(Seq<u8>, Seq<u8>)>) -> bool {
    forall|i: int, j: int| 0 <= i < j < s.len() ==> crate::key::key_lt(#[trigger] s[i].0, #[trigger] s[j].0)
}

/// What is left after one step: all but the first pair, or nothing.
pub open spec fn advanced(s: Seq<(Seq<u8>, Seq<u8>)>) -> Seq<(Seq<u8>, Seq<u8>)> {
    if s.len() > 0 {
        s.drop_first()
    } else {
        s
    }
}

/// An iterator over key-value pairs. Its state is described by the pairs it
/// has still to yield, from the current one on; the description holds while
/// the iterator is well formed, which a step that fails may end.
pub trait StorageIterator {
    /// The iterator is in a state its description covers. An iterator that
    /// gives no description is never in one, and promises nothing.
    open spec fn wf(&self) -> bool {
        false
    }

    /// The pairs still to come, the current one first.
    open spec fn remaining(&self) -> Seq<(Seq<u8>, Seq<u8>)> {
        Seq::empty()
    }

    /// A step of this iterator has failed. An iterator that gives no
    /// description never says so, and so never fails a step.
    open spec fn step_failed(&self) -> bool {
        false
    }

    /// Get the current value.
    fn value(&self) -> (v: &[u8])
        requires
            self.wf(),
            self.remaining().len() > 0,
        ensures
            v@ == self.remaining()[0].1,
    ;

    /// Get the current key.
    fn key(&self) -> (k: KeySlice<'_>)
        requires
            self.wf(),
            self.remaining().len() > 0,
        ensures
            k@ == self.remaining()[0].0,
    ;

    /// Check if the current iterator is valid
    fn is_valid(&self) -> (b: bool)
        ensures
            self.wf() ==> b == (self.remaining().len() > 0),
    ;

    /// Move to the next position.
    fn next(&mut self) -> (r: Result<(), anyhow::Error>)
        requires
            old(self).wf(),
        ensures
            r is Ok ==> final(self).wf() && final(self).remaining() == advanced(old(self).remaining()),
            r is Err ==> final(self).step_failed(),
    ;

    /// Number of underlying active iterators for this iterator.
    fn num_active_iterators(&self) -> (n: usize)
        default_ensures
            n == 1,
    {
        1
    }
}

} // verus!
