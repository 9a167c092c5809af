//! The iterator a scan returns: merged pairs without the deleted ones.
use vstd::prelude::*;

use crate::iterators::merge_iterator::{
    failed_step, lemma_merge_steps_shift, lemma_merged_pairs, merge_steps, merged, preferred, MergeIterator,
};
use crate::iterators::{advanced, error_msg, StorageIterator};
use crate::key::KeySlice;

verus! {

/// The pairs that are not deletions: a deletion is a pair with an empty value.
pub open spec fn live_entries(s: Seq<(Seq<u8>, Seq<u8>)>) -> Seq<(Seq<u8>, Seq<u8>)>
    decreases s.len(),
{
    if s.len() == 0 {
        s
    } else if s[0].1.len() == 0 {
        live_entries(s.drop_first())
    } else {
        seq![s[0]] + live_entries(s.drop_first())
    }
}

/// No pair that `live_entries` keeps is a deletion, and each one comes from
/// the input.
pub proof fn lemma_live_entries(s: Seq<(Seq<u8>, Seq<u8>)>)
    ensures
        forall|i: int| 0 <= i < live_entries(s).len() ==> (#[trigger] live_entries(s)[i]).1.len() > 0,
        forall|i: int| 0 <= i < live_entries(s).len() ==> s.contains(#[trigger] live_entries(s)[i]),
    decreases s.len(),
{
    if s.len() > 0 {
        lemma_live_entries(s.drop_first());
        let rest = live_entries(s.drop_first());
        assert forall|i: int| 0 <= i < live_entries(s).len() implies s.contains(#[trigger] live_entries(s)[i]) by {
            if s[0].1.len() == 0 {
                assert(s.drop_first().contains(live_entries(s)[i]));
                let w = choose|w: int| 0 <= w < s.drop_first().len() && s.drop_first()[w] == live_entries(s)[i];
                assert(s[w + 1] == live_entries(s)[i]);
            } else if i == 0 {
                assert(s[0] == live_entries(s)[0]);
            } else {
                assert(live_entries(s)[i] == rest[i - 1]);
                assert(s.drop_first().contains(rest[i - 1]));
                let w = choose|w: int| 0 <= w < s.drop_first().len() && s.drop_first()[w] == rest[i - 1];
                assert(s[w + 1] == rest[i - 1]);
            }
        }
    }
}

/// A pair is among the live entries exactly when it is in the input and is
/// not a deletion.
pub proof fn lemma_live_entries_contains(s: Seq<(Seq<u8>, Seq<u8>)>, e: (Seq<u8>, Seq<u8>))
    ensures
        live_entries(s).contains(e) <==> (s.contains(e) && e.1.len() > 0),
    decreases s.len(),
{
    if s.len() > 0 {
        lemma_live_entries_contains(s.drop_first(), e);
        let rest = live_entries(s.drop_first());
        if s.contains(e) && e.1.len() > 0 {
            let w = choose|w: int| 0 <= w < s.len() && s[w] == e;
            if w > 0 {
                assert(s.drop_first()[w - 1] == e);
            }
        }
        if s.drop_first().contains(e) {
            let w = choose|w: int| 0 <= w < s.drop_first().len() && s.drop_first()[w] == e;
            assert(s[w + 1] == e);
        }
        if s[0].1.len() > 0 {
            let l = live_entries(s);
            assert(l == seq![s[0]] + rest);
            if l.contains(e) {
                let w = choose|w: int| 0 <= w < l.len() && l[w] == e;
                if w > 0 {
                    assert(rest[w - 1] == e);
                }
            }
            if rest.contains(e) {
                let w = choose|w: int| 0 <= w < rest.len() && rest[w] == e;
                assert(l[w + 1] == e);
            }
            if e == s[0] {
                assert(l[0] == e);
            }
        }
    }
}

/// What a scan over sorted sources yields: for each key, the pair of the
/// source with the smallest index among those that hold the key, unless that
/// pair is a deletion.
pub proof fn lemma_scan_pairs(sources: Seq<Seq<(Seq<u8>, Seq<u8>)>>, key: Seq<u8>, value: Seq<u8>)
    requires
        forall|j: int| 0 <= j < sources.len() ==> crate::iterators::strictly_sorted(#[trigger] sources[j]),
    ensures
        live_entries(merged(sources)).contains((key, value)) <==> (preferred(sources, key, value) && value.len()
            > 0),
{
    lemma_merged_pairs(sources, key, value);
    lemma_live_entries_contains(merged(sources), (key, value));
}

/// Iterates over the pairs of merged sources, skipping deletions.
pub struct LsmIterator<I: StorageIterator> {
    inner: MergeIterator<I>,
}

impl<I: StorageIterator> LsmIterator<I> {
    /// The merging iterator whose pairs this one filters.
    pub closed spec fn merge(&self) -> MergeIterator<I> {
        self.inner
    }

    /// Skips the deletions at the front of the merged pairs. It fails only
    /// where a step of the merging iterator fails: its inputs' steps failing
    /// aside, it succeeds and yields the live entries.
    pub fn new(iter: MergeIterator<I>) -> (r: Result<Self, anyhow::Error>)
        requires
            iter.wf(),
        ensures
            r matches Ok(it) ==> it.wf() && it.remaining() == live_entries(iter.remaining()),
            iter.remaining().len() == 0 || iter.remaining()[0].1.len() > 0 ==> r is Ok,
            r is Err ==> exists|m: MergeIterator<I>, k: nat|
                #![trigger merge_steps(iter.sources(), k), m.step_failed()]
                m.step_failed() && failed_step(merge_steps(iter.sources(), k), m.sources(), m.current_input()),
    {
        let ghost start = iter.sources();
        let mut this = Self { inner: iter };
        match this.skip_tombstones() {
            Err(e) => {
                proof {
                    let k = choose|k: nat|
                        failed_step(
                            #[trigger] merge_steps(start, k),
                            this.inner.sources(),
                            this.inner.current_input(),
                        );
                    let m = this.inner;
                    assert(m.step_failed() && failed_step(merge_steps(start, k), m.sources(), m.current_input()));
                }
                Err(e)
            },
            Ok(()) => Ok(this),
        }
    }

    fn skip_tombstones(&mut self) -> (r: Result<(), anyhow::Error>)
        requires
            old(self).inner.wf(),
        ensures
            r is Ok ==> final(self).wf() && live_entries(final(self).inner.remaining()) == live_entries(
                old(self).inner.remaining(),
            ),
            old(self).inner.remaining().len() == 0 || old(self).inner.remaining()[0].1.len() > 0 ==> r is Ok
                && final(self).inner.remaining() == old(self).inner.remaining(),
            r is Err ==> final(self).inner.step_failed(),
            r is Err ==> exists|m: nat|
                failed_step(
                    #[trigger] merge_steps(old(self).inner.sources(), m),
                    final(self).inner.sources(),
                    final(self).inner.current_input(),
                ),
    {
        let ghost start = self.inner.sources();
        let ghost mut m: nat = 0;
        while self.inner.is_valid() && self.inner.value().len() == 0
            invariant
                self.inner.wf(),
                start == old(self).inner.sources(),
                self.inner.sources() == merge_steps(start, m),
                live_entries(self.inner.remaining()) == live_entries(old(self).inner.remaining()),
                old(self).inner.remaining().len() == 0 || old(self).inner.remaining()[0].1.len() > 0
                    ==> self.inner.remaining() == old(self).inner.remaining(),
            decreases self.inner.remaining().len(),
        {
            let ghost before = self.inner.sources();
            match self.inner.next() {
                Err(e) => {
                    assert(failed_step(merge_steps(start, m), self.inner.sources(), self.inner.current_input()));
                    return Err(e);
                },
                Ok(()) => {},
            }
            proof {
                assert(self.inner.sources() == merge_steps(start, m + 1));
                m = m + 1;
            }
        }
        Ok(())
    }
}

impl<I: StorageIterator> StorageIterator for LsmIterator<I> {
    closed spec fn wf(&self) -> bool {
        &&& self.inner.wf()
        &&& self.inner.remaining().len() > 0 ==> self.inner.remaining()[0].1.len() > 0
    }

    closed spec fn remaining(&self) -> Seq<(Seq<u8>, Seq<u8>)> {
        live_entries(self.inner.remaining())
    }

    /// A step of the merging iterator failed.
    closed spec fn step_failed(&self) -> bool {
        self.inner.step_failed()
    }

    /// With nothing left, the step takes no step of an input and succeeds. A
    /// step that fails leaves the merging iterator as a failed step of the
    /// merge leaves it, after some steps that succeeded.
    fn next(&mut self) -> (r: Result<(), anyhow::Error>)
        ensures
            old(self).remaining().len() == 0 ==> r is Ok,
            r is Err ==> exists|m: nat|
                failed_step(
                    #[trigger] merge_steps(old(self).merge().sources(), m),
                    final(self).merge().sources(),
                    final(self).merge().current_input(),
                ),
    {
        let ghost start = self.inner.sources();
        let ghost s = self.inner.remaining();
        proof {
            if s.len() > 0 {
                assert(live_entries(s) == seq![s[0]] + live_entries(s.drop_first()));
            }
        }
        match self.inner.next() {
            Err(e) => {
                assert(merge_steps(start, 0) == start);
                assert(failed_step(merge_steps(start, 0), self.inner.sources(), self.inner.current_input()));
                assert(old(self).merge().sources() == start);
                assert(failed_step(
                    merge_steps(old(self).merge().sources(), 0),
                    self.merge().sources(),
                    self.merge().current_input(),
                ));
                return Err(e);
            },
            Ok(()) => {},
        }
        let r = self.skip_tombstones();
        proof {
            if r is Err {
                let m = choose|m: nat|
                    failed_step(
                        #[trigger] merge_steps(crate::iterators::merge_iterator::merge_step(start), m),
                        self.inner.sources(),
                        self.inner.current_input(),
                    );
                lemma_merge_steps_shift(start, m);
                assert(failed_step(merge_steps(start, m + 1), self.inner.sources(), self.inner.current_input()));
                assert(old(self).merge().sources() == start);
                assert(failed_step(
                    merge_steps(old(self).merge().sources(), m + 1),
                    self.merge().sources(),
                    self.merge().current_input(),
                ));
            }
            if s.len() > 0 {
                assert(live_entries(s) == seq![s[0]] + live_entries(s.drop_first()));
                assert(advanced(live_entries(s)) =~= live_entries(s.drop_first()));
            }
        }
        r
    }

    fn key(&self) -> (k: KeySlice<'_>) {
        self.inner.key()
    }

    fn value(&self) -> (v: &[u8]) {
        self.inner.value()
    }

    fn is_valid(&self) -> (b: bool) {
        self.inner.is_valid()
    }
}

/// A wrapper around existing iterator, will prevent users from calling `next` when the iterator is
/// invalid. If an iterator is already invalid, `next` does not do anything. If `next` returns an
/// error, `is_valid` should return false, and `next` should always return an error.
pub struct FusedIterator<I: StorageIterator> {
    iter: I,
    has_errored: bool,
}

impl<I: StorageIterator> FusedIterator<I> {
    /// The wrapped iterator.
    pub closed spec fn inner(&self) -> I {
        self.iter
    }

    /// Whether a step has failed.
    pub closed spec fn has_errored(&self) -> bool {
        self.has_errored
    }

    pub fn new(iter: I) -> (f: Self)
        ensures
            f.inner() == iter,
            !f.has_errored(),
            f.wf() == iter.wf(),
            f.remaining() == iter.remaining(),
    {
        Self { iter, has_errored: false }
    }
}

impl<I: StorageIterator> StorageIterator for FusedIterator<I> {
    /// Once a step has failed, well formed while the wrapped iterator says
    /// so; before, while the wrapped iterator is.
    closed spec fn wf(&self) -> bool {
        if self.has_errored {
            self.iter.step_failed()
        } else {
            self.iter.wf()
        }
    }

    /// A step has failed: the wrapped iterator's.
    closed spec fn step_failed(&self) -> bool {
        self.has_errored && self.iter.step_failed()
    }

    /// Nothing once a step has failed, and otherwise what the wrapped iterator
    /// has still to yield.
    closed spec fn remaining(&self) -> Seq<(Seq<u8>, Seq<u8>)> {
        if self.has_errored {
            Seq::empty()
        } else {
            self.iter.remaining()
        }
    }

    /// Once a step has failed, every later one fails and changes nothing. On an
    /// iterator with nothing left, a step does nothing and succeeds. Otherwise
    /// the wrapped iterator takes the step, and where it fails this iterator
    /// is marked as failed.
    fn next(&mut self) -> (r: Result<(), anyhow::Error>)
        ensures
            old(self).has_errored() ==> r is Err && *final(self) == *old(self),
            !old(self).has_errored() && old(self).remaining().len() == 0 ==> r is Ok && *final(self) == *old(
                self,
            ),
            r is Err ==> final(self).has_errored() && final(self).wf() && final(self).remaining().len() == 0,
            r is Ok ==> !final(self).has_errored(),
    {
        if self.has_errored {
            return Err(error_msg("the iterator is tainted"));
        }
        if self.iter.is_valid() {
            match self.iter.next() {
                Err(e) => {
                    self.has_errored = true;
                    return Err(e);
                },
                Ok(()) => {},
            }
        }
        Ok(())
    }

    fn key(&self) -> (k: KeySlice<'_>) {
        self.iter.key()
    }

    fn value(&self) -> (v: &[u8]) {
        self.iter.value()
    }

    /// Invalid once a step has failed.
    fn is_valid(&self) -> (b: bool)
        ensures
            self.has_errored() ==> !b,
    {
        !self.has_errored && self.iter.is_valid()
    }
}

} // verus!
