//! Keys of the storage engine: an owned, a borrowed and a shared byte string.
use vstd::prelude::*;

use bytes::Bytes;

use crate::codec::{bytes_as_slice, bytes_clone, bytes_from_vec, bytes_view};

verus! {

/// Whether timestamps are stored with keys; this engine keeps none.
pub const TS_ENABLED: bool = false;

/// A key, ordered and compared by its bytes.
#[derive(Debug, PartialEq, Eq, PartialOrd, Ord, Hash, Default)]
pub struct Key<T>(T);

impl<'a> Clone for Key<&'a [u8]> {
    fn clone(&self) -> (k: Self)
        ensures
            k == *self,
    {
        Key(self.0)
    }
}

impl<'a> Copy for Key<&'a [u8]> {

}

impl Clone for Key<Vec<u8>> {
    fn clone(&self) -> (k: Self)
        ensures
            k@ == self@,
    {
        let v = self.0.clone();
        assert(v@ =~= self.0@);
        Key(v)
    }
}

impl Clone for Key<Bytes> {
    fn clone(&self) -> (k: Self)
        ensures
            k@ == self@,
    {
        Key(bytes_clone(&self.0))
    }
}

pub type KeySlice<'a> = Key<&'a [u8]>;

pub type KeyVec = Key<Vec<u8>>;

pub type KeyBytes = Key<Bytes>;

/// Byte-wise lexicographic order, the order of keys: a proper prefix comes
/// first.
pub open spec fn key_lt(a: Seq<u8>, b: Seq<u8>) -> bool
    decreases a.len(),
{
    if a.len() == 0 {
        b.len() > 0
    } else if b.len() == 0 {
        false
    } else if a[0] != b[0] {
        a[0] < b[0]
    } else {
        key_lt(a.drop_first(), b.drop_first())
    }
}

/// Two byte strings that agree on their first `i` bytes compare as their
/// remainders do.
proof fn lemma_key_lt_skip(a: Seq<u8>, b: Seq<u8>, i: int)
    requires
        0 <= i <= a.len(),
        i <= b.len(),
        a.take(i) == b.take(i),
    ensures
        key_lt(a, b) == key_lt(a.skip(i), b.skip(i)),
    decreases i,
{
    if i > 0 {
        assert(a[0] == a.take(i)[0]);
        assert(b[0] == b.take(i)[0]);
        assert(a.drop_first().take(i - 1) =~= a.take(i).drop_first());
        assert(b.drop_first().take(i - 1) =~= b.take(i).drop_first());
        lemma_key_lt_skip(a.drop_first(), b.drop_first(), i - 1);
        assert(a.drop_first().skip(i - 1) =~= a.skip(i));
        assert(b.drop_first().skip(i - 1) =~= b.skip(i));
    } else {
        assert(a.skip(0) =~= a);
        assert(b.skip(0) =~= b);
    }
}

/// `a` comes before `b` where, at the first byte where they differ, `a`'s byte
/// is the smaller as an unsigned number, or where `a` is a proper prefix of
/// `b`.
pub proof fn lemma_key_lt_bytes(a: Seq<u8>, b: Seq<u8>)
    ensures
        key_lt(a, b) <==> ((exists|i: int|
            0 <= i < a.len() && i < b.len() && a.take(i) == b.take(i) && (#[trigger] a[i] as int) < (
            b[i] as int)) || (a.len() < b.len() && b.take(a.len() as int) == a)),
    decreases a.len(),
{
    if a.len() == 0 {
        assert(b.take(0) =~= a);
    } else if b.len() == 0 {
    } else if a[0] != b[0] {
        if a[0] < b[0] {
            assert(a.take(0) =~= b.take(0));
            assert((a[0] as int) < (b[0] as int));
        }
        if exists|i: int|
            0 <= i < a.len() && i < b.len() && a.take(i) == b.take(i) && (#[trigger] a[i] as int) < (b[i] as int) {
            let i = choose|i: int|
                0 <= i < a.len() && i < b.len() && a.take(i) == b.take(i) && (#[trigger] a[i] as int) < (
                b[i] as int);
            if i > 0 {
                assert(a.take(i)[0] == b.take(i)[0]);
            }
        }
        if a.len() < b.len() && b.take(a.len() as int) == a {
            assert(b.take(a.len() as int)[0] == b[0]);
        }
    } else {
        let a1 = a.drop_first();
        let b1 = b.drop_first();
        lemma_key_lt_bytes(a1, b1);
        if exists|i: int|
            0 <= i < a1.len() && i < b1.len() && a1.take(i) == b1.take(i) && (#[trigger] a1[i] as int) < (
            b1[i] as int) {
            let i = choose|i: int|
                0 <= i < a1.len() && i < b1.len() && a1.take(i) == b1.take(i) && (#[trigger] a1[i] as int) < (
                b1[i] as int);
            assert(a.take(i + 1) =~= seq![a[0]] + a1.take(i));
            assert(b.take(i + 1) =~= seq![b[0]] + b1.take(i));
            assert(a[i + 1] == a1[i]);
            assert(b[i + 1] == b1[i]);
        }
        if exists|i: int|
            0 <= i < a.len() && i < b.len() && a.take(i) == b.take(i) && (#[trigger] a[i] as int) < (b[i] as int) {
            let i = choose|i: int|
                0 <= i < a.len() && i < b.len() && a.take(i) == b.take(i) && (#[trigger] a[i] as int) < (
                b[i] as int);
            assert(i != 0);
            assert(a1.take(i - 1) =~= a.take(i).drop_first());
            assert(b1.take(i - 1) =~= b.take(i).drop_first());
            assert(a1[i - 1] == a[i]);
            assert(b1[i - 1] == b[i]);
        }
        if a1.len() < b1.len() && b1.take(a1.len() as int) == a1 {
            assert(b.take(a.len() as int) =~= seq![b[0]] + b1.take(a1.len() as int));
            assert(a =~= seq![a[0]] + a1);
        }
        if a.len() < b.len() && b.take(a.len() as int) == a {
            assert(b1.take(a1.len() as int) =~= b.take(a.len() as int).drop_first());
        }
    }
}

/// Of two keys whose first bytes differ, the one whose first byte is the
/// smaller as an unsigned number comes first.
pub proof fn lemma_key_lt_first_byte(a: Seq<u8>, b: Seq<u8>)
    requires
        a.len() > 0,
        b.len() > 0,
        (a[0] as int) < (b[0] as int),
    ensures
        key_lt(a, b),
        !key_lt(b, a),
{
    lemma_key_lt_bytes(a, b);
    assert(a.take(0) =~= b.take(0));
    assert((a[0] as int) < (b[0] as int));
    lemma_key_lt_bytes(b, a);
    if key_lt(b, a) {
        if exists|i: int|
            0 <= i < b.len() && i < a.len() && b.take(i) == a.take(i) && (#[trigger] b[i] as int) < (a[i] as int) {
            let i = choose|i: int|
                0 <= i < b.len() && i < a.len() && b.take(i) == a.take(i) && (#[trigger] b[i] as int) < (
                a[i] as int);
            if i > 0 {
                assert(b.take(i)[0] == a.take(i)[0]);
            }
        } else {
            assert(a.take(b.len() as int)[0] == a[0]);
        }
    }
}

/// The order of keys is transitive.
pub proof fn lemma_key_lt_transitive(a: Seq<u8>, b: Seq<u8>, c: Seq<u8>)
    requires
        key_lt(a, b),
        key_lt(b, c),
    ensures
        key_lt(a, c),
    decreases a.len(),
{
    if a.len() > 0 && b.len() > 0 && c.len() > 0 && a[0] == b[0] && b[0] == c[0] {
        lemma_key_lt_transitive(a.drop_first(), b.drop_first(), c.drop_first());
    }
}

/// The order of keys is irreflexive.
pub proof fn lemma_key_lt_irreflexive(a: Seq<u8>)
    ensures
        !key_lt(a, a),
    decreases a.len(),
{
    if a.len() > 0 {
        lemma_key_lt_irreflexive(a.drop_first());
    }
}

/// Of two different keys, one comes before the other.
pub proof fn lemma_key_lt_total(a: Seq<u8>, b: Seq<u8>)
    requires
        a != b,
    ensures
        key_lt(a, b) || key_lt(b, a),
    decreases a.len(),
{
    if a.len() > 0 && b.len() > 0 && a[0] == b[0] {
        if a.drop_first() == b.drop_first() {
            assert(a =~= seq![a[0]] + a.drop_first());
            assert(b =~= seq![b[0]] + b.drop_first());
        }
        lemma_key_lt_total(a.drop_first(), b.drop_first());
    } else if a.len() == 0 && b.len() == 0 {
        assert(a =~= b);
    }
}

/// Whether `a` comes before `b` in the order of keys.
pub fn slice_lt(a: &[u8], b: &[u8]) -> (r: bool)
    ensures
        r == key_lt(a@, b@),
{
    let mut i: usize = 0;
    while i < a.len() && i < b.len()
        invariant
            i <= a@.len(),
            i <= b@.len(),
            a@.take(i as int) == b@.take(i as int),
        decreases a@.len() - i,
    {
        if a[i] != b[i] {
            proof {
                lemma_key_lt_skip(a@, b@, i as int);
                assert(a@.skip(i as int)[0] == a@[i as int]);
                assert(b@.skip(i as int)[0] == b@[i as int]);
            }
            return a[i] < b[i];
        }
        assert(a@.take(i + 1) =~= a@.take(i as int).push(a@[i as int]));
        assert(b@.take(i + 1) =~= b@.take(i as int).push(b@[i as int]));
        i += 1;
    }
    proof {
        lemma_key_lt_skip(a@, b@, i as int);
    }
    a.len() < b.len()
}

impl<T> Key<T> {
    /// The value that the key wraps.
    pub closed spec fn inner(self) -> T {
        self.0
    }

    pub fn into_inner(self) -> (r: T)
        ensures
            r == self.inner(),
    {
        self.0
    }

    /// Keys carry no timestamp, so this is always zero.
    pub fn for_testing_ts(self) -> (r: u64)
        ensures
            r == 0,
    {
        0
    }
}

impl<'a> View for Key<&'a [u8]> {
    type V = Seq<u8>;

    open spec fn view(&self) -> Seq<u8> {
        self.inner()@
    }
}

impl View for Key<Vec<u8>> {
    type V = Seq<u8>;

    open spec fn view(&self) -> Seq<u8> {
        self.inner()@
    }
}

impl View for Key<Bytes> {
    type V = Seq<u8>;

    open spec fn view(&self) -> Seq<u8> {
        bytes_view(self.inner())
    }
}

impl<'a> Key<&'a [u8]> {
    /// Create a key slice from a slice.
    pub fn from_slice(slice: &'a [u8]) -> (k: Self)
        ensures
            k@ == slice@,
            k.inner() == slice,
    {
        Key(slice)
    }

    pub fn len(&self) -> (n: usize)
        ensures
            n == self@.len(),
    {
        self.0.len()
    }

    pub fn is_empty(&self) -> (b: bool)
        ensures
            b == (self@.len() == 0),
    {
        self.0.len() == 0
    }

    pub fn to_key_vec(self) -> (k: KeyVec)
        ensures
            k@ == self@,
    {
        Key(vstd::slice::slice_to_vec(self.0))
    }

    pub fn raw_ref(&self) -> (s: &'a [u8])
        ensures
            s@ == self@,
    {
        self.0
    }

    pub fn for_testing_key_ref(&self) -> (s: &'a [u8])
        ensures
            s@ == self@,
    {
        self.0
    }

    pub fn for_testing_from_slice_no_ts(slice: &'a [u8]) -> (k: Self)
        ensures
            k@ == slice@,
    {
        Key(slice)
    }

    /// The timestamp is dropped: keys carry none.
    pub fn for_testing_from_slice_with_ts(slice: &'a [u8], _ts: u64) -> (k: Self)
        ensures
            k@ == slice@,
    {
        Key(slice)
    }
}

impl Key<Vec<u8>> {
    pub fn new() -> (k: Self)
        ensures
            k@ == Seq::<u8>::empty(),
    {
        Key(Vec::new())
    }

    /// Create a `KeyVec` from a `Vec<u8>`.
    pub fn from_vec(key: Vec<u8>) -> (k: Self)
        ensures
            k@ == key@,
            k.inner() == key,
    {
        Key(key)
    }

    pub fn len(&self) -> (n: usize)
        ensures
            n == self@.len(),
    {
        self.0.len()
    }

    pub fn is_empty(&self) -> (b: bool)
        ensures
            b == (self@.len() == 0),
    {
        self.0.len() == 0
    }

    /// Clears the key and set ts to 0.
    pub fn clear(&mut self)
        ensures
            final(self)@ == Seq::<u8>::empty(),
    {
        self.0.clear();
    }

    /// Append a slice to the end of the key.
    pub fn append(&mut self, data: &[u8])
        ensures
            final(self)@ == old(self)@ + data@,
    {
        self.0.extend_from_slice(data);
        assert(self@ =~= old(self)@ + data@);
    }

    /// Set the key from a slice without re-allocating.
    pub fn set_from_slice(&mut self, key_slice: KeySlice)
        ensures
            final(self)@ == key_slice@,
    {
        self.0.clear();
        self.0.extend_from_slice(key_slice.0);
        assert(self@ =~= key_slice@);
    }

    pub fn as_key_slice(&self) -> (k: KeySlice<'_>)
        ensures
            k@ == self@,
    {
        Key(self.0.as_slice())
    }

    pub fn into_key_bytes(self) -> (k: KeyBytes)
        ensures
            k@ == self@,
    {
        Key(bytes_from_vec(self.0))
    }

    pub fn raw_ref(&self) -> (s: &[u8])
        ensures
            s@ == self@,
    {
        self.0.as_slice()
    }

    pub fn for_testing_key_ref(&self) -> (s: &[u8])
        ensures
            s@ == self@,
    {
        self.0.as_slice()
    }

    pub fn for_testing_from_vec_no_ts(key: Vec<u8>) -> (k: Self)
        ensures
            k@ == key@,
    {
        Key(key)
    }
}

impl Key<Bytes> {
    /// Create a `KeyBytes` from a `Bytes`.
    pub fn from_bytes(bytes: Bytes) -> (k: Self)
        ensures
            k@ == bytes_view(bytes),
            k.inner() == bytes,
    {
        Key(bytes)
    }

    pub fn len(&self) -> (n: usize)
        ensures
            n == self@.len(),
    {
        bytes_as_slice(&self.0).len()
    }

    pub fn is_empty(&self) -> (b: bool)
        ensures
            b == (self@.len() == 0),
    {
        bytes_as_slice(&self.0).len() == 0
    }

    pub fn as_key_slice(&self) -> (k: KeySlice<'_>)
        ensures
            k@ == self@,
    {
        Key(bytes_as_slice(&self.0))
    }

    pub fn raw_ref(&self) -> (s: &[u8])
        ensures
            s@ == self@,
    {
        bytes_as_slice(&self.0)
    }

    pub fn for_testing_key_ref(&self) -> (s: &[u8])
        ensures
            s@ == self@,
    {
        bytes_as_slice(&self.0)
    }

    pub fn for_testing_from_bytes_no_ts(bytes: Bytes) -> (k: Self)
        ensures
            k@ == bytes_view(bytes),
    {
        Key(bytes)
    }
}

} // verus!
