use mini_lsm::iterators::merge_iterator::MergeIterator;
use mini_lsm::iterators::StorageIterator;
use mini_lsm::key::KeySlice;
use mini_lsm::lsm_iterator::{FusedIterator, LsmIterator};

/// An iterator over pairs held in memory, which may fail at a set step.
struct VecIter {
    pairs: Vec<(Vec<u8>, Vec<u8>)>,
    pos: usize,
    fail_at: Option<usize>,
}

impl VecIter {
    fn new(pairs: &[(&str, &str)]) -> Self {
        VecIter {
            pairs: pairs.iter().map(|(k, v)| (k.as_bytes().to_vec(), v.as_bytes().to_vec())).collect(),
            pos: 0,
            fail_at: None,
        }
    }
}

impl StorageIterator for VecIter {
    fn value(&self) -> &[u8] {
        &self.pairs[self.pos].1
    }

    fn key(&self) -> KeySlice<'_> {
        KeySlice::from_slice(&self.pairs[self.pos].0)
    }

    fn is_valid(&self) -> bool {
        self.pos < self.pairs.len()
    }

    fn next(&mut self) -> anyhow::Result<()> {
        if self.fail_at == Some(self.pos) {
            return Err(anyhow::Error::msg("read failed"));
        }
        if self.pos < self.pairs.len() {
            self.pos += 1;
        }
        Ok(())
    }
}

fn collect<I: StorageIterator>(iter: &mut I) -> Vec<(String, String)> {
    let mut out = Vec::new();
    while iter.is_valid() {
        out.push((
            String::from_utf8(iter.key().raw_ref().to_vec()).unwrap(),
            String::from_utf8(iter.value().to_vec()).unwrap(),
        ));
        iter.next().unwrap();
    }
    out
}

fn pairs(v: &[(&str, &str)]) -> Vec<(String, String)> {
    v.iter().map(|(k, v)| (k.to_string(), v.to_string())).collect()
}

#[test]
fn merge_prefers_smaller_index() {
    let i1 = VecIter::new(&[("a", "1.1"), ("b", "2.1"), ("c", "3.1")]);
    let i2 = VecIter::new(&[("a", "1.2"), ("b", "2.2"), ("c", "3.2"), ("d", "4.2")]);
    let i3 = VecIter::new(&[("b", "2.3"), ("c", "3.3"), ("d", "4.3")]);
    let mut iter = MergeIterator::create(vec![Box::new(i1), Box::new(i2), Box::new(i3)]);
    assert_eq!(
        collect(&mut iter),
        pairs(&[("a", "1.1"), ("b", "2.1"), ("c", "3.1"), ("d", "4.2")])
    );
}

#[test]
fn merge_interleaves_and_skips_empty_inputs() {
    let i1 = VecIter::new(&[("b", "1"), ("e", "1")]);
    let i2 = VecIter::new(&[]);
    let i3 = VecIter::new(&[("a", "3"), ("c", "3"), ("e", "3"), ("f", "3")]);
    let mut iter = MergeIterator::create(vec![Box::new(i1), Box::new(i2), Box::new(i3)]);
    assert_eq!(iter.num_active_iterators(), 1);
    assert_eq!(
        collect(&mut iter),
        pairs(&[("a", "3"), ("b", "1"), ("c", "3"), ("e", "1"), ("f", "3")])
    );
    // Past the end a step does nothing.
    assert!(iter.next().is_ok());
    assert!(!iter.is_valid());
}

#[test]
fn merge_of_nothing_is_invalid() {
    let iter: MergeIterator<VecIter> = MergeIterator::create(Vec::new());
    assert!(!iter.is_valid());
}

#[test]
fn merge_passes_an_error_on() {
    let i1 = VecIter::new(&[("a", "1"), ("b", "1")]);
    let mut i2 = VecIter::new(&[("a", "2"), ("c", "2")]);
    i2.fail_at = Some(0);
    let mut iter = MergeIterator::create(vec![Box::new(i1), Box::new(i2)]);
    assert_eq!(iter.key().raw_ref(), b"a");
    assert!(iter.next().is_err());
    // The failed input is dropped; the current one stays where it was.
    assert!(iter.is_valid());
    assert_eq!(iter.key().raw_ref(), b"a");
    assert_eq!(iter.value(), b"1");
    assert!(iter.next().is_ok());
    assert_eq!(iter.key().raw_ref(), b"b");
    assert!(iter.next().is_ok());
    assert!(!iter.is_valid());
}

#[test]
fn merge_current_input_failing_stays_current() {
    let mut i1 = VecIter::new(&[("a", "1"), ("b", "1")]);
    i1.fail_at = Some(0);
    let i2 = VecIter::new(&[("a", "2"), ("c", "2")]);
    let mut iter = MergeIterator::create(vec![Box::new(i1), Box::new(i2)]);
    assert_eq!(iter.value(), b"1");
    assert!(iter.next().is_err());
    // The other input has passed over the key; the failed one is still current.
    assert!(iter.is_valid());
    assert_eq!(iter.key().raw_ref(), b"a");
    assert_eq!(iter.value(), b"1");
}

#[test]
fn lsm_iterator_skips_deletions() {
    // A deletion in the newer input hides the older value.
    let newer = VecIter::new(&[("a", ""), ("c", "3"), ("d", "")]);
    let older = VecIter::new(&[("a", "1"), ("b", "2"), ("d", "4"), ("e", "5")]);
    let merged = MergeIterator::create(vec![Box::new(newer), Box::new(older)]);
    let mut iter = LsmIterator::new(merged).unwrap();
    assert_eq!(collect(&mut iter), pairs(&[("b", "2"), ("c", "3"), ("e", "5")]));
}

#[test]
fn lsm_iterator_of_only_deletions_is_empty() {
    let only = VecIter::new(&[("a", ""), ("b", "")]);
    let merged = MergeIterator::create(vec![Box::new(only)]);
    let iter = LsmIterator::new(merged).unwrap();
    assert!(!iter.is_valid());
}

#[test]
fn fused_iterator_wraps() {
    let mut fused = FusedIterator::new(VecIter::new(&[("a", "1"), ("b", "2")]));
    assert_eq!(collect(&mut fused), pairs(&[("a", "1"), ("b", "2")]));
    // An iterator with nothing left does nothing on a step.
    assert!(fused.next().is_ok());
    assert!(!fused.is_valid());
}

#[test]
fn fused_iterator_stays_failed() {
    let mut inner = VecIter::new(&[("a", "1"), ("b", "2")]);
    inner.fail_at = Some(0);
    let mut fused = FusedIterator::new(inner);
    assert!(fused.is_valid());
    assert_eq!(fused.key().raw_ref(), b"a");
    assert!(fused.next().is_err());
    assert!(!fused.is_valid());
    assert!(fused.next().is_err());
    assert!(!fused.is_valid());
}

#[test]
fn lsm_iterator_passes_an_error_on() {
    let mut newer = VecIter::new(&[("a", ""), ("c", "3")]);
    newer.fail_at = Some(0);
    let older = VecIter::new(&[("b", "2")]);
    let merged = MergeIterator::create(vec![Box::new(newer), Box::new(older)]);
    assert!(LsmIterator::new(merged).is_err());
}

#[test]
fn merge_of_unsorted_inputs_takes_smallest_current_key() {
    let i1 = VecIter::new(&[("c", "1"), ("a", "1")]);
    let i2 = VecIter::new(&[("b", "2")]);
    let mut iter = MergeIterator::create(vec![Box::new(i1), Box::new(i2)]);
    assert_eq!(collect(&mut iter), pairs(&[("b", "2"), ("c", "1"), ("a", "1")]));
}

#[test]
fn merge_passes_over_a_repeated_key_in_other_inputs_only() {
    let i1 = VecIter::new(&[("a", "1"), ("a", "2"), ("b", "1")]);
    let i2 = VecIter::new(&[("a", "3"), ("a", "4"), ("c", "3")]);
    let mut iter = MergeIterator::create(vec![Box::new(i1), Box::new(i2)]);
    assert_eq!(collect(&mut iter), pairs(&[("a", "1"), ("a", "2"), ("b", "1"), ("c", "3")]));
}
