//! Merging several sorted iterators into one.
use vstd::prelude::*;

use crate::iterators::{advanced, strictly_sorted, StorageIterator};
use crate::key::{key_lt, lemma_key_lt_irreflexive, lemma_key_lt_total, lemma_key_lt_transitive, slice_lt, KeySlice};

verus! {

/// The total number of pairs the sources hold.
pub open spec fn total_len(sources: Seq<Seq<(Seq<u8>, Seq<u8>)>>) -> nat
    decreases sources.len(),
{
    if sources.len() == 0 {
        0
    } else {
        total_len(sources.drop_last()) + sources.last().len()
    }
}

/// Source `i`'s current pair comes before source `j`'s: a smaller key, or the
/// same key from a source with a smaller index.
pub open spec fn head_before(sources: Seq<Seq<(Seq<u8>, Seq<u8>)>>, i: int, j: int) -> bool {
    key_lt(sources[i][0].0, sources[j][0].0) || (sources[i][0].0 == sources[j][0].0 && i < j)
}

/// The source whose current pair comes first, or -1 where every source is
/// empty.
pub open spec fn min_source(sources: Seq<Seq<(Seq<u8>, Seq<u8>)>>) -> int
    decreases sources.len(),
{
    if sources.len() == 0 {
        -1
    } else {
        let m = min_source(sources.drop_last());
        let j = sources.len() - 1;
        if sources[j].len() == 0 {
            m
        } else if m < 0 {
            j
        } else if key_lt(sources[j][0].0, sources[m][0].0) {
            j
        } else {
            m
        }
    }
}

/// Each source without the pairs at its front whose key is `key`.
pub open spec fn drop_key(sources: Seq<Seq<(Seq<u8>, Seq<u8>)>>, key: Seq<u8>) -> Seq<Seq<(Seq<u8>, Seq<u8>)>> {
    Seq::new(
        sources.len(),
        |i: int|
            if sources[i].len() > 0 && sources[i][0].0 == key {
                sources[i].drop_first()
            } else {
                sources[i]
            },
    )
}

proof fn lemma_drop_key_shrinks(sources: Seq<Seq<(Seq<u8>, Seq<u8>)>>, key: Seq<u8>, i: int)
    requires
        0 <= i < sources.len(),
        sources[i].len() > 0,
        sources[i][0].0 == key,
    ensures
        total_len(drop_key(sources, key)) < total_len(sources),
    decreases sources.len(),
{
    lemma_drop_key_no_growth(sources, key);
    let n = sources.len() - 1;
    assert(drop_key(sources, key).drop_last() =~= drop_key(sources.drop_last(), key));
    if i < n {
        lemma_drop_key_shrinks(sources.drop_last(), key, i);
    } else {
        lemma_drop_key_no_growth(sources.drop_last(), key);
    }
}

proof fn lemma_drop_key_no_growth(sources: Seq<Seq<(Seq<u8>, Seq<u8>)>>, key: Seq<u8>)
    ensures
        total_len(drop_key(sources, key)) <= total_len(sources),
    decreases sources.len(),
{
    if sources.len() > 0 {
        assert(drop_key(sources, key).drop_last() =~= drop_key(sources.drop_last(), key));
        lemma_drop_key_no_growth(sources.drop_last(), key);
    }
}

/// `min_source` names a non-empty source whose current pair comes before the
/// current pair of every other non-empty source, and is -1 only where all are
/// empty.
pub proof fn lemma_min_source(sources: Seq<Seq<(Seq<u8>, Seq<u8>)>>)
    ensures
        -1 <= min_source(sources) < sources.len(),
        min_source(sources) < 0 <==> forall|j: int| 0 <= j < sources.len() ==> (#[trigger] sources[j]).len() == 0,
        min_source(sources) >= 0 ==> {
            let m = min_source(sources);
            &&& sources[m].len() > 0
            &&& forall|j: int|
                0 <= j < sources.len() && j != m && (#[trigger] sources[j]).len() > 0 ==> head_before(sources, m, j)
        },
    decreases sources.len(),
{
    if sources.len() > 0 {
        let prefix = sources.drop_last();
        lemma_min_source(prefix);
        let m = min_source(prefix);
        let j = sources.len() - 1;
        assert forall|i: int| 0 <= i < prefix.len() implies prefix[i] == sources[i] by {}
        if sources[j].len() > 0 && m >= 0 {
            if !key_lt(sources[j][0].0, sources[m][0].0) {
                if sources[j][0].0 != sources[m][0].0 {
                    lemma_key_lt_total(sources[j][0].0, sources[m][0].0);
                }
                assert(head_before(sources, m, j));
            } else {
                assert forall|i: int|
                    0 <= i < sources.len() && i != j && (#[trigger] sources[i]).len() > 0 implies head_before(
                    sources,
                    j,
                    i,
                ) by {
                    if i != m {
                        assert(head_before(prefix, m, i));
                        if key_lt(sources[m][0].0, sources[i][0].0) {
                            lemma_key_lt_transitive(sources[j][0].0, sources[m][0].0, sources[i][0].0);
                        }
                    }
                }
            }
        }
    }
}

/// Of two different non-empty sources, one's current pair comes before the
/// other's, never both.
pub proof fn lemma_head_before_total(sources: Seq<Seq<(Seq<u8>, Seq<u8>)>>, i: int, j: int)
    requires
        0 <= i < sources.len(),
        0 <= j < sources.len(),
        i != j,
        sources[i].len() > 0,
        sources[j].len() > 0,
    ensures
        head_before(sources, i, j) || head_before(sources, j, i),
        !(head_before(sources, i, j) && head_before(sources, j, i)),
{
    let a = sources[i][0].0;
    let b = sources[j][0].0;
    if a != b {
        lemma_key_lt_total(a, b);
    }
    if key_lt(a, b) && key_lt(b, a) {
        lemma_key_lt_transitive(a, b, a);
        lemma_key_lt_irreflexive(a);
    }
    if a == b {
        lemma_key_lt_irreflexive(a);
    }
}

/// The order of current pairs is transitive.
pub proof fn lemma_head_before_transitive(sources: Seq<Seq<(Seq<u8>, Seq<u8>)>>, i: int, j: int, k: int)
    requires
        head_before(sources, i, j),
        head_before(sources, j, k),
    ensures
        head_before(sources, i, k),
{
    let a = sources[i][0].0;
    let b = sources[j][0].0;
    let c = sources[k][0].0;
    if key_lt(a, b) && key_lt(b, c) {
        lemma_key_lt_transitive(a, b, c);
    }
}

/// A source that is not empty and whose current pair comes before every other
/// non-empty source's is the one `min_source` names.
pub proof fn lemma_min_source_unique(sources: Seq<Seq<(Seq<u8>, Seq<u8>)>>, c: int)
    requires
        0 <= c < sources.len(),
        sources[c].len() > 0,
        forall|j: int|
            0 <= j < sources.len() && j != c && (#[trigger] sources[j]).len() > 0 ==> head_before(sources, c, j),
    ensures
        min_source(sources) == c,
{
    lemma_min_source(sources);
    let m = min_source(sources);
    if m != c {
        lemma_head_before_total(sources, m, c);
    }
}

/// `after` is `before` without some pairs at its front, each with key `key`.
pub open spec fn key_prefix_dropped(before: Seq<(Seq<u8>, Seq<u8>)>, after: Seq<(Seq<u8>, Seq<u8>)>, key: Seq<u8>) -> bool {
    exists|d: int|
        0 <= d <= before.len() && after == #[trigger] before.skip(d) && forall|x: int|
            0 <= x < d ==> (#[trigger] before[x]).0 == key
}

#[via_fn]
proof fn skip_key_decreases(sources: Seq<Seq<(Seq<u8>, Seq<u8>)>>, c: int, key: Seq<u8>) {
    let t = min_source(sources.update(c, Seq::empty()));
    lemma_min_source(sources.update(c, Seq::empty()));
    if 0 <= c < sources.len() && t >= 0 && sources[t].len() > 0 && sources[t][0].0 == key {
        lemma_total_len_update(sources, t, sources[t].drop_first());
    }
}

/// The sources once the inputs other than `c` have passed over `key`: while
/// the input whose current pair comes first among them has `key` as its
/// current key, it steps once.
pub open spec fn skip_key(sources: Seq<Seq<(Seq<u8>, Seq<u8>)>>, c: int, key: Seq<u8>) -> Seq<Seq<(Seq<u8>, Seq<u8>)>>
    decreases total_len(sources),
    via skip_key_decreases
{
    let t = min_source(sources.update(c, Seq::empty()));
    if 0 <= c < sources.len() && t >= 0 && sources[t].len() > 0 && sources[t][0].0 == key {
        skip_key(sources.update(t, sources[t].drop_first()), c, key)
    } else {
        sources
    }
}

/// One step of a merge: the other inputs pass over the key of the current
/// pair that comes first, then the input that holds that pair steps once;
/// nothing changes where every source is empty.
pub open spec fn merge_step(sources: Seq<Seq<(Seq<u8>, Seq<u8>)>>) -> Seq<Seq<(Seq<u8>, Seq<u8>)>> {
    let m = min_source(sources);
    if m < 0 {
        sources
    } else {
        skip_key(sources, m, sources[m][0].0).update(m, sources[m].drop_first())
    }
}

/// Passing over a key leaves the input `c` as it was and takes from every
/// other input only pairs at its front with that key.
pub proof fn lemma_skip_key(sources: Seq<Seq<(Seq<u8>, Seq<u8>)>>, c: int, key: Seq<u8>)
    requires
        0 <= c < sources.len(),
    ensures
        skip_key(sources, c, key).len() == sources.len(),
        skip_key(sources, c, key)[c] == sources[c],
        total_len(skip_key(sources, c, key)) <= total_len(sources),
        forall|j: int|
            0 <= j < sources.len() ==> key_prefix_dropped(sources[j], #[trigger] skip_key(sources, c, key)[j], key),
    decreases total_len(sources),
{
    let e = sources.update(c, Seq::empty());
    let t = min_source(e);
    lemma_min_source(e);
    if t >= 0 && sources[t].len() > 0 && sources[t][0].0 == key {
        assert(e[t].len() > 0);
        assert(t != c);
        let u = sources.update(t, sources[t].drop_first());
        lemma_total_len_update(sources, t, sources[t].drop_first());
        lemma_skip_key(u, c, key);
        let r = skip_key(u, c, key);
        assert(r == skip_key(sources, c, key));
        assert forall|j: int| 0 <= j < sources.len() implies key_prefix_dropped(sources[j], #[trigger] r[j], key) by {
            let d = choose|d: int|
                0 <= d <= u[j].len() && r[j] == #[trigger] u[j].skip(d) && forall|x: int|
                    0 <= x < d ==> (#[trigger] u[j][x]).0 == key;
            if j == t {
                assert(r[j] =~= sources[j].skip(d + 1));
                assert forall|x: int| 0 <= x < d + 1 implies (#[trigger] sources[j][x]).0 == key by {
                    if x > 0 {
                        assert(u[j][x - 1] == sources[j][x]);
                    }
                }
            } else {
                assert(u[j] == sources[j]);
            }
        }
    } else {
        assert forall|j: int| 0 <= j < sources.len() implies key_prefix_dropped(
            sources[j],
            #[trigger] skip_key(sources, c, key)[j],
            key,
        ) by {
            assert(sources[j].skip(0) =~= sources[j]);
        }
    }
}

/// Where the input other than `c` whose current pair comes first has `key` as
/// its current key, passing over `key` steps that input once and goes on;
/// where there is no such input, it leaves the sources as they are.
proof fn lemma_skip_key_unfold(sources: Seq<Seq<(Seq<u8>, Seq<u8>)>>, c: int, key: Seq<u8>)
    requires
        0 <= c < sources.len(),
    ensures
        ({
            let t = min_source(sources.update(c, Seq::empty()));
            if t >= 0 && sources[t].len() > 0 && sources[t][0].0 == key {
                skip_key(sources, c, key) == skip_key(sources.update(t, sources[t].drop_first()), c, key)
            } else {
                skip_key(sources, c, key) == sources
            }
        }),
{
}

/// A step of a merge with pairs left takes at least one pair.
proof fn lemma_merge_step_shrinks(sources: Seq<Seq<(Seq<u8>, Seq<u8>)>>)
    requires
        min_source(sources) >= 0,
    ensures
        total_len(merge_step(sources)) < total_len(sources),
{
    lemma_min_source(sources);
    let m = min_source(sources);
    let k = sources[m][0].0;
    lemma_skip_key(sources, m, k);
    lemma_total_len_update(skip_key(sources, m, k), m, sources[m].drop_first());
}

/// Passing over the key `k` from a state `u` of sorted sources `s0`, where
/// every input other than `c` either is as in `s0` or has lost its front pair
/// with key `k`, and none has a current key before `k`, drops that key from the
/// front of every input but `c`.
proof fn lemma_skip_key_sorted(s0: Seq<Seq<(Seq<u8>, Seq<u8>)>>, u: Seq<Seq<(Seq<u8>, Seq<u8>)>>, c: int, k: Seq<u8>)
    requires
        forall|j: int| 0 <= j < s0.len() ==> strictly_sorted(#[trigger] s0[j]),
        0 <= c < s0.len(),
        u.len() == s0.len(),
        u[c] == s0[c],
        forall|j: int|
            0 <= j < s0.len() && j != c ==> {
                ||| #[trigger] u[j] == s0[j]
                ||| (s0[j].len() > 0 && s0[j][0].0 == k && u[j] == s0[j].drop_first())
            },
        forall|j: int|
            0 <= j < s0.len() && j != c && (#[trigger] u[j]).len() > 0 ==> !key_lt(u[j][0].0, k) && (u[j][0].0
                == k ==> u[j] == s0[j]),
    ensures
        skip_key(u, c, k) == drop_key(s0, k).update(c, s0[c]),
    decreases total_len(u),
{
    let e = u.update(c, Seq::empty());
    let t = min_source(e);
    lemma_min_source(e);
    if t >= 0 && u[t].len() > 0 && u[t][0].0 == k {
        assert(e[t].len() > 0);
        assert(t != c);
        assert(u[t] == s0[t]);
        let u2 = u.update(t, s0[t].drop_first());
        lemma_total_len_update(u, t, s0[t].drop_first());
        lemma_sorted_drop_first(s0[t]);
        if s0[t].drop_first().len() > 0 {
            lemma_key_lt_asymmetric(k, s0[t].drop_first()[0].0);
        }
        assert forall|j: int|
            0 <= j < s0.len() && j != c && (#[trigger] u2[j]).len() > 0 implies !key_lt(u2[j][0].0, k) && (u2[j][0].0
                == k ==> u2[j] == s0[j]) by {
            if j != t {
                assert(u2[j] == u[j]);
            }
        }
        assert forall|j: int| 0 <= j < s0.len() && j != c implies {
            ||| #[trigger] u2[j] == s0[j]
            ||| (s0[j].len() > 0 && s0[j][0].0 == k && u2[j] == s0[j].drop_first())
        } by {
            if j != t {
                assert(u2[j] == u[j]);
            }
        }
        lemma_skip_key_sorted(s0, u2, c, k);
    } else {
        assert forall|j: int| 0 <= j < s0.len() && j != c && (#[trigger] u[j]).len() > 0 implies u[j][0].0 != k by {
            assert(e[j] == u[j]);
            if u[j][0].0 == k {
                if t != j {
                    assert(head_before(e, t, j));
                    assert(e[t] == u[t]);
                    if key_lt(u[t][0].0, k) {
                    } else {
                        lemma_key_lt_irreflexive(k);
                    }
                }
            }
        }
        assert(skip_key(u, c, k) == u);
        assert(u =~= drop_key(s0, k).update(c, s0[c]));
    }
}

/// For sorted sources, a step of a merge drops the smallest current key from
/// the front of every source.
pub proof fn lemma_sorted_step(sources: Seq<Seq<(Seq<u8>, Seq<u8>)>>)
    requires
        forall|j: int| 0 <= j < sources.len() ==> strictly_sorted(#[trigger] sources[j]),
        min_source(sources) >= 0,
    ensures
        merge_step(sources) == drop_key(sources, sources[min_source(sources)][0].0),
{
    lemma_min_source(sources);
    let m = min_source(sources);
    let k = sources[m][0].0;
    assert forall|j: int|
        0 <= j < sources.len() && j != m && (#[trigger] sources[j]).len() > 0 implies !key_lt(sources[j][0].0, k) by {
        lemma_head_before_total(sources, m, j);
        if key_lt(sources[j][0].0, k) {
            lemma_key_lt_asymmetric(sources[j][0].0, k);
        }
    }
    lemma_skip_key_sorted(sources, sources, m, k);
    assert(merge_step(sources) =~= drop_key(sources, k));
}

#[via_fn]
proof fn merged_decreases(sources: Seq<Seq<(Seq<u8>, Seq<u8>)>>) {
    if min_source(sources) >= 0 {
        lemma_merge_step_shrinks(sources);
    }
}

/// The pairs a merge of several sources yields: each step yields the current
/// pair that comes first, the one of the source with the smallest index among
/// those whose current key is the smallest, and then takes a step of the merge.
pub open spec fn merged(sources: Seq<Seq<(Seq<u8>, Seq<u8>)>>) -> Seq<(Seq<u8>, Seq<u8>)>
    decreases total_len(sources),
    via merged_decreases
{
    let m = min_source(sources);
    if m < 0 {
        Seq::empty()
    } else {
        seq![sources[m][0]] + merged(merge_step(sources))
    }
}

proof fn lemma_total_len_update(s: Seq<Seq<(Seq<u8>, Seq<u8>)>>, i: int, x: Seq<(Seq<u8>, Seq<u8>)>)
    requires
        0 <= i < s.len(),
    ensures
        total_len(s.update(i, x)) == total_len(s) - s[i].len() + x.len(),
    decreases s.len(),
{
    let n = s.len() - 1;
    if i < n {
        assert(s.update(i, x).drop_last() =~= s.drop_last().update(i, x));
        lemma_total_len_update(s.drop_last(), i, x);
    } else {
        assert(s.update(i, x).drop_last() =~= s.drop_last());
    }
}

proof fn lemma_key_lt_asymmetric(a: Seq<u8>, b: Seq<u8>)
    requires
        key_lt(a, b),
    ensures
        !key_lt(b, a),
        a != b,
{
    lemma_key_lt_irreflexive(a);
    if key_lt(b, a) {
        lemma_key_lt_transitive(a, b, a);
    }
}

/// The pairs after the first of a strictly sorted sequence come after it.
proof fn lemma_sorted_drop_first(s: Seq<(Seq<u8>, Seq<u8>)>)
    requires
        strictly_sorted(s),
        s.len() > 0,
    ensures
        strictly_sorted(s.drop_first()),
        s.len() > 1 ==> key_lt(s[0].0, s.drop_first()[0].0),
{
    if s.len() > 1 {
        assert(s.drop_first()[0] == s[1]);
    }
    assert forall|i: int, j: int| 0 <= i < j < s.drop_first().len() implies key_lt(
        #[trigger] s.drop_first()[i].0,
        #[trigger] s.drop_first()[j].0,
    ) by {
        assert(s.drop_first()[i] == s[i + 1]);
        assert(s.drop_first()[j] == s[j + 1]);
    }
}

/// The first pair of a merge is the current pair of a source with the
/// smallest current key, and of the one with the smallest index among the
/// sources that share that key.
pub proof fn lemma_merged_first(sources: Seq<Seq<(Seq<u8>, Seq<u8>)>>)
    requires
        merged(sources).len() > 0,
    ensures
        exists|i: int|
            0 <= i < sources.len() && sources[i].len() > 0 && merged(sources)[0] == sources[i][0] && (forall|j: int|
                0 <= j < sources.len() && (#[trigger] sources[j]).len() > 0 ==> !key_lt(
                    sources[j][0].0,
                    sources[i][0].0,
                )) && (forall|j: int|
                0 <= j < i && (#[trigger] sources[j]).len() > 0 ==> sources[j][0].0 != sources[i][0].0),
{
    lemma_min_source(sources);
    let m = min_source(sources);
    assert forall|j: int| 0 <= j < sources.len() && (#[trigger] sources[j]).len() > 0 implies !key_lt(
        sources[j][0].0,
        sources[m][0].0,
    ) by {
        if j != m {
            lemma_head_before_total(sources, m, j);
            if key_lt(sources[j][0].0, sources[m][0].0) {
                lemma_key_lt_asymmetric(sources[j][0].0, sources[m][0].0);
            }
        } else {
            lemma_key_lt_irreflexive(sources[m][0].0);
        }
    }
    assert forall|j: int| 0 <= j < m && (#[trigger] sources[j]).len() > 0 implies sources[j][0].0
        != sources[m][0].0 by {
        lemma_head_before_total(sources, m, j);
    }
}

/// Every key of every source comes after `key`.
pub open spec fn all_keys_after(sources: Seq<Seq<(Seq<u8>, Seq<u8>)>>, key: Seq<u8>) -> bool {
    forall|j: int, i: int| 0 <= j < sources.len() && 0 <= i < sources[j].len() ==> key_lt(key, #[trigger] sources[j][i].0)
}

proof fn lemma_merged_keys_after(sources: Seq<Seq<(Seq<u8>, Seq<u8>)>>, key: Seq<u8>)
    requires
        forall|j: int| 0 <= j < sources.len() ==> strictly_sorted(#[trigger] sources[j]),
        all_keys_after(sources, key),
    ensures
        forall|i: int| 0 <= i < merged(sources).len() ==> key_lt(key, #[trigger] merged(sources)[i].0),
    decreases total_len(sources),
{
    lemma_min_source(sources);
    let m = min_source(sources);
    if m >= 0 {
        let k = sources[m][0].0;
        let next = drop_key(sources, k);
        lemma_drop_key_shrinks(sources, k, m);
        lemma_sorted_step(sources);
        assert forall|j: int| 0 <= j < next.len() implies strictly_sorted(#[trigger] next[j]) by {
            if sources[j].len() > 0 && sources[j][0].0 == k {
                lemma_sorted_drop_first(sources[j]);
            }
        }
        assert forall|j: int, i: int| 0 <= j < next.len() && 0 <= i < next[j].len() implies key_lt(
            key,
            #[trigger] next[j][i].0,
        ) by {
            if sources[j].len() > 0 && sources[j][0].0 == k {
                assert(next[j][i] == sources[j][i + 1]);
            }
        }
        lemma_merged_keys_after(next, key);
        assert forall|i: int| 0 <= i < merged(sources).len() implies key_lt(key, #[trigger] merged(sources)[i].0) by {
            if i > 0 {
                assert(merged(sources)[i] == merged(next)[i - 1]);
            }
        }
    }
}

/// Merging sources whose keys are strictly ascending yields strictly
/// ascending keys: each key once.
pub proof fn lemma_merged_sorted(sources: Seq<Seq<(Seq<u8>, Seq<u8>)>>)
    requires
        forall|j: int| 0 <= j < sources.len() ==> strictly_sorted(#[trigger] sources[j]),
    ensures
        strictly_sorted(merged(sources)),
    decreases total_len(sources),
{
    lemma_min_source(sources);
    let m = min_source(sources);
    if m >= 0 {
        let k = sources[m][0].0;
        let next = drop_key(sources, k);
        lemma_drop_key_shrinks(sources, k, m);
        lemma_sorted_step(sources);
        assert forall|j: int| 0 <= j < next.len() implies strictly_sorted(#[trigger] next[j]) by {
            if sources[j].len() > 0 && sources[j][0].0 == k {
                lemma_sorted_drop_first(sources[j]);
            }
        }
        assert forall|j: int, i: int| 0 <= j < next.len() && 0 <= i < next[j].len() implies key_lt(
            k,
            #[trigger] next[j][i].0,
        ) by {
            if sources[j].len() > 0 && sources[j][0].0 == k {
                assert(next[j][i] == sources[j][i + 1]);
                assert(key_lt(sources[j][0].0, sources[j][i + 1].0));
            } else {
                assert(next[j][i] == sources[j][i]);
                if j != m {
                    lemma_head_before_total(sources, m, j);
                }
                assert(key_lt(k, sources[j][0].0));
                if i > 0 {
                    assert(key_lt(sources[j][0].0, sources[j][i].0));
                    lemma_key_lt_transitive(k, sources[j][0].0, sources[j][i].0);
                }
            }
        }
        lemma_merged_keys_after(next, k);
        lemma_merged_sorted(next);
        let r = merged(sources);
        assert forall|a: int, b: int| 0 <= a < b < r.len() implies key_lt(#[trigger] r[a].0, #[trigger] r[b].0) by {
            assert(r[b] == merged(next)[b - 1]);
            if a > 0 {
                assert(r[a] == merged(next)[a - 1]);
            }
        }
    }
}

/// Source `src` holds a pair with key `key`.
pub open spec fn holds_key(src: Seq<(Seq<u8>, Seq<u8>)>, key: Seq<u8>) -> bool {
    exists|i: int| 0 <= i < src.len() && (#[trigger] src[i]).0 == key
}

/// `(key, value)` is the pair for `key` of the source with the smallest
/// index among those that hold the key.
pub open spec fn preferred(sources: Seq<Seq<(Seq<u8>, Seq<u8>)>>, key: Seq<u8>, value: Seq<u8>) -> bool {
    exists|j: int, i: int|
        0 <= j < sources.len() && 0 <= i < sources[j].len() && (#[trigger] sources[j][i]) == (key, value)
            && forall|jj: int| 0 <= jj < j ==> !holds_key(#[trigger] sources[jj], key)
}

/// In sorted sources, a source that holds the smallest current key holds it
/// at its front, and nowhere else.
proof fn lemma_min_key_at_front(sources: Seq<Seq<(Seq<u8>, Seq<u8>)>>, j: int, i: int)
    requires
        forall|x: int| 0 <= x < sources.len() ==> strictly_sorted(#[trigger] sources[x]),
        min_source(sources) >= 0,
        0 <= j < sources.len(),
        0 <= i < sources[j].len(),
        sources[j][i].0 == sources[min_source(sources)][0].0,
    ensures
        i == 0,
        j == min_source(sources) || head_before(sources, min_source(sources), j),
{
    lemma_min_source(sources);
    let m = min_source(sources);
    let km = sources[m][0].0;
    let h = sources[j][0].0;
    if j != m {
        lemma_head_before_total(sources, m, j);
    }
    // The front key of source j is not before km.
    assert(!key_lt(h, km)) by {
        if j != m {
            if key_lt(h, km) {
                lemma_key_lt_asymmetric(h, km);
            }
        } else {
            lemma_key_lt_irreflexive(km);
        }
    }
    if i > 0 {
        assert(key_lt(h, sources[j][i].0));
        if h != km {
            lemma_key_lt_total(h, km);
            lemma_key_lt_transitive(km, h, sources[j][i].0);
        }
        lemma_key_lt_irreflexive(km);
    }
}

/// Dropping the smallest key leaves every other key where it was, and the
/// smallest key nowhere.
proof fn lemma_drop_min_key(sources: Seq<Seq<(Seq<u8>, Seq<u8>)>>, key: Seq<u8>, value: Seq<u8>)
    requires
        forall|x: int| 0 <= x < sources.len() ==> strictly_sorted(#[trigger] sources[x]),
        min_source(sources) >= 0,
    ensures
        ({
            let km = sources[min_source(sources)][0].0;
            let next = drop_key(sources, km);
            &&& forall|j: int| 0 <= j < next.len() ==> !holds_key(#[trigger] next[j], km)
            &&& key != km ==> (preferred(next, key, value) <==> preferred(sources, key, value))
        }),
{
    let m = min_source(sources);
    let km = sources[m][0].0;
    let next = drop_key(sources, km);
    assert forall|j: int| 0 <= j < next.len() implies !holds_key(#[trigger] next[j], km) by {
        if holds_key(next[j], km) {
            let i = choose|i: int| 0 <= i < next[j].len() && (#[trigger] next[j][i]).0 == km;
            if sources[j].len() > 0 && sources[j][0].0 == km {
                assert(next[j][i] == sources[j][i + 1]);
                lemma_min_key_at_front(sources, j, i + 1);
            } else {
                lemma_min_key_at_front(sources, j, i);
            }
        }
    }
    if key != km {
        // Pairs with another key are the same in both.
        assert forall|j: int| 0 <= j < sources.len() implies holds_key(#[trigger] next[j], key)
            == holds_key(sources[j], key) by {
            if sources[j].len() > 0 && sources[j][0].0 == km {
                if holds_key(sources[j], key) {
                    let i = choose|i: int| 0 <= i < sources[j].len() && (#[trigger] sources[j][i]).0 == key;
                    assert(i != 0);
                    assert(next[j][i - 1] == sources[j][i]);
                }
                if holds_key(next[j], key) {
                    let i = choose|i: int| 0 <= i < next[j].len() && (#[trigger] next[j][i]).0 == key;
                    assert(next[j][i] == sources[j][i + 1]);
                }
            }
        }
        if preferred(next, key, value) {
            let (j, i) = choose|j: int, i: int|
                0 <= j < next.len() && 0 <= i < next[j].len() && (#[trigger] next[j][i]) == (key, value)
                    && forall|jj: int| 0 <= jj < j ==> !holds_key(#[trigger] next[jj], key);
            if sources[j].len() > 0 && sources[j][0].0 == km {
                assert(next[j][i] == sources[j][i + 1]);
                assert(sources[j][i + 1] == (key, value));
            } else {
                assert(sources[j][i] == (key, value));
            }
            assert forall|jj: int| 0 <= jj < j implies !holds_key(#[trigger] sources[jj], key) by {
                assert(holds_key(next[jj], key) == holds_key(sources[jj], key));
            }
        }
        if preferred(sources, key, value) {
            let (j, i) = choose|j: int, i: int|
                0 <= j < sources.len() && 0 <= i < sources[j].len() && (#[trigger] sources[j][i]) == (key, value)
                    && forall|jj: int| 0 <= jj < j ==> !holds_key(#[trigger] sources[jj], key);
            if sources[j].len() > 0 && sources[j][0].0 == km {
                assert(i != 0);
                assert(next[j][i - 1] == sources[j][i]);
            } else {
                assert(next[j][i] == sources[j][i]);
            }
            assert forall|jj: int| 0 <= jj < j implies !holds_key(#[trigger] next[jj], key) by {
                assert(holds_key(next[jj], key) == holds_key(sources[jj], key));
            }
        }
    }
}

/// Merging sorted sources yields, for each key any source holds, exactly one
/// pair: the one of the source with the smallest index among those that hold
/// the key. A key that occurs in several inputs comes from the input with the
/// smallest index.
pub proof fn lemma_merged_pairs(sources: Seq<Seq<(Seq<u8>, Seq<u8>)>>, key: Seq<u8>, value: Seq<u8>)
    requires
        forall|j: int| 0 <= j < sources.len() ==> strictly_sorted(#[trigger] sources[j]),
    ensures
        merged(sources).contains((key, value)) <==> preferred(sources, key, value),
    decreases total_len(sources),
{
    lemma_min_source(sources);
    let m = min_source(sources);
    if m < 0 {
        if preferred(sources, key, value) {
            let (j, i) = choose|j: int, i: int|
                0 <= j < sources.len() && 0 <= i < sources[j].len() && (#[trigger] sources[j][i]) == (key, value)
                    && forall|jj: int| 0 <= jj < j ==> !holds_key(#[trigger] sources[jj], key);
            assert(sources[j].len() == 0);
        }
    } else {
        let km = sources[m][0].0;
        let next = drop_key(sources, km);
        lemma_drop_key_shrinks(sources, km, m);
        lemma_sorted_step(sources);
        assert forall|j: int| 0 <= j < next.len() implies strictly_sorted(#[trigger] next[j]) by {
            if sources[j].len() > 0 && sources[j][0].0 == km {
                lemma_sorted_drop_first(sources[j]);
            }
        }
        lemma_merged_pairs(next, key, value);
        lemma_drop_min_key(sources, key, value);
        let r = merged(sources);
        assert(r == seq![sources[m][0]] + merged(next));
        if key == km {
            // The smallest key comes only from the front of source m.
            if merged(next).contains((key, value)) {
                let (j, i) = choose|j: int, i: int|
                    0 <= j < next.len() && 0 <= i < next[j].len() && (#[trigger] next[j][i]) == (key, value)
                        && forall|jj: int| 0 <= jj < j ==> !holds_key(#[trigger] next[jj], key);
                assert(holds_key(next[j], km));
            }
            if r.contains((key, value)) {
                let w = choose|w: int| 0 <= w < r.len() && r[w] == (key, value);
                if w > 0 {
                    assert(merged(next)[w - 1] == (key, value));
                    assert(merged(next).contains((key, value)));
                }
                assert(sources[m][0] == (key, value));
                assert forall|jj: int| 0 <= jj < m implies !holds_key(#[trigger] sources[jj], key) by {
                    if holds_key(sources[jj], key) {
                        let i = choose|i: int| 0 <= i < sources[jj].len() && (#[trigger] sources[jj][i]).0 == key;
                        lemma_min_key_at_front(sources, jj, i);
                        lemma_key_lt_irreflexive(km);
                    }
                }
            }
            if preferred(sources, key, value) {
                let (j, i) = choose|j: int, i: int|
                    0 <= j < sources.len() && 0 <= i < sources[j].len() && (#[trigger] sources[j][i]) == (key, value)
                        && forall|jj: int| 0 <= jj < j ==> !holds_key(#[trigger] sources[jj], key);
                lemma_min_key_at_front(sources, j, i);
                lemma_key_lt_irreflexive(km);
                if j != m {
                    assert(sources[m][0].0 == key);
                    assert(holds_key(sources[m], key));
                }
                assert(r[0] == (key, value));
            }
        } else {
            if r.contains((key, value)) {
                let w = choose|w: int| 0 <= w < r.len() && r[w] == (key, value);
                assert(w != 0);
                assert(merged(next)[w - 1] == (key, value));
            }
            if merged(next).contains((key, value)) {
                let w = choose|w: int| 0 <= w < merged(next).len() && merged(next)[w] == (key, value);
                assert(r[w + 1] == (key, value));
            }
        }
    }
}

/// The source with the smallest index among those up to `j` that hold `key`.
proof fn lemma_first_holder(sources: Seq<Seq<(Seq<u8>, Seq<u8>)>>, key: Seq<u8>, j: int) -> (j0: int)
    requires
        0 <= j < sources.len(),
        holds_key(sources[j], key),
    ensures
        0 <= j0 <= j,
        holds_key(sources[j0], key),
        forall|jj: int| 0 <= jj < j0 ==> !holds_key(#[trigger] sources[jj], key),
    decreases j,
{
    if exists|jj: int| 0 <= jj < j && holds_key(#[trigger] sources[jj], key) {
        let jj = choose|jj: int| 0 <= jj < j && holds_key(#[trigger] sources[jj], key);
        lemma_first_holder(sources, key, jj)
    } else {
        j
    }
}

/// Merging sorted sources yields a pair for every key that some source holds
/// and for no other key, with strictly ascending keys: each key exactly once.
pub proof fn lemma_merged_keys(sources: Seq<Seq<(Seq<u8>, Seq<u8>)>>, key: Seq<u8>)
    requires
        forall|j: int| 0 <= j < sources.len() ==> strictly_sorted(#[trigger] sources[j]),
    ensures
        strictly_sorted(merged(sources)),
        (exists|v: Seq<u8>| merged(sources).contains((key, v))) <==> (exists|j: int|
            0 <= j < sources.len() && holds_key(#[trigger] sources[j], key)),
{
    lemma_merged_sorted(sources);
    if exists|j: int| 0 <= j < sources.len() && holds_key(#[trigger] sources[j], key) {
        let j = choose|j: int| 0 <= j < sources.len() && holds_key(#[trigger] sources[j], key);
        let j0 = lemma_first_holder(sources, key, j);
        let i = choose|i: int| 0 <= i < sources[j0].len() && (#[trigger] sources[j0][i]).0 == key;
        let v = sources[j0][i].1;
        assert(sources[j0][i] == (key, v));
        assert(preferred(sources, key, v));
        lemma_merged_pairs(sources, key, v);
        assert(merged(sources).contains((key, v)));
    }
    if exists|v: Seq<u8>| merged(sources).contains((key, v)) {
        let v = choose|v: Seq<u8>| merged(sources).contains((key, v));
        lemma_merged_pairs(sources, key, v);
        let (j, i) = choose|j: int, i: int|
            0 <= j < sources.len() && 0 <= i < sources[j].len() && (#[trigger] sources[j][i]) == (key, v)
                && forall|jj: int| 0 <= jj < j ==> !holds_key(#[trigger] sources[jj], key);
        assert(holds_key(sources[j], key));
    }
}

/// The sources after `m` steps of a merge.
pub open spec fn merge_steps(sources: Seq<Seq<(Seq<u8>, Seq<u8>)>>, m: nat) -> Seq<Seq<(Seq<u8>, Seq<u8>)>>
    decreases m,
{
    if m == 0 {
        sources
    } else {
        merge_step(merge_steps(sources, (m - 1) as nat))
    }
}

/// Taking one step and then `m` more is taking `m + 1` steps.
pub proof fn lemma_merge_steps_shift(sources: Seq<Seq<(Seq<u8>, Seq<u8>)>>, m: nat)
    ensures
        merge_steps(merge_step(sources), m) == merge_steps(sources, m + 1),
    decreases m,
{
    if m > 0 {
        lemma_merge_steps_shift(sources, (m - 1) as nat);
        assert(merge_steps(merge_step(sources), m) == merge_step(merge_steps(merge_step(sources), (m - 1) as nat)));
        assert(merge_steps(sources, m + 1) == merge_step(merge_steps(sources, m)));
    } else {
        assert(merge_steps(sources, 1) == merge_step(merge_steps(sources, 0)));
    }
}

/// What a failed step of a merge from `before` leaves in `after`, with `cur`
/// the input that is current afterwards. Pairs were left, and the input whose
/// current pair came first is still the current one. One input `f` whose
/// current key was the key passed over failed its own step: where `f` is not
/// the current input it is dropped and the current input keeps all its pairs;
/// where `f` is the current input, what it still holds is not known. Every
/// other input lost only pairs at its front with the key passed over, if any.
pub open spec fn failed_step(
    before: Seq<Seq<(Seq<u8>, Seq<u8>)>>,
    after: Seq<Seq<(Seq<u8>, Seq<u8>)>>,
    cur: int,
) -> bool {
    let c = min_source(before);
    let k = before[c][0].0;
    &&& c >= 0
    &&& cur == c
    &&& after.len() == before.len()
    &&& exists|f: int|
        0 <= f < before.len() && (#[trigger] before[f]).len() > 0 && before[f][0].0 == k && (f != c
            ==> after[f].len() == 0 && after[c] == before[c]) && (forall|j: int|
            0 <= j < before.len() && j != f && j != c ==> key_prefix_dropped(before[j], #[trigger] after[j], k))
}

/// An iterator and the index of the input it came from.
struct HeapWrapper<I: StorageIterator>(pub usize, pub Box<I>);

/// Merge multiple iterators of the same type. If the same key occurs multiple times in some
/// iterators, prefer the one with smaller index.
///
/// The iterator whose current pair comes first is held apart as the current
/// one; every other input that still has pairs sits in the slot of its index.
pub struct MergeIterator<I: StorageIterator> {
    iters: Vec<Option<Box<I>>>,
    current: Option<HeapWrapper<I>>,
    /// The input, as its failed step left it, whose failure a failed step of
    /// the merge passed on.
    failure: Ghost<Option<I>>,
}

/// What each slot's iterator has still to yield; an empty slot yields nothing.
pub open spec fn slot_sources<I: StorageIterator>(iters: Seq<Option<Box<I>>>) -> Seq<Seq<(Seq<u8>, Seq<u8>)>> {
    Seq::new(
        iters.len(),
        |i: int|
            match iters[i] {
                Some(b) => b.remaining(),
                None => Seq::empty(),
            },
    )
}

/// Every iterator in a slot is well formed and has pairs left.
pub open spec fn slots_ok<I: StorageIterator>(iters: Seq<Option<Box<I>>>) -> bool {
    forall|i: int|
        0 <= i < iters.len() && (#[trigger] iters[i]) is Some ==> {
            &&& iters[i].unwrap().wf()
            &&& iters[i].unwrap().remaining().len() > 0
        }
}

/// The slot whose iterator's current pair comes first, as `min_source` picks
/// it among the slots.
fn min_slot<I: StorageIterator>(iters: &Vec<Option<Box<I>>>) -> (r: Option<usize>)
    requires
        slots_ok(iters@),
    ensures
        r == if min_source(slot_sources(iters@)) < 0 {
            None::<usize>
        } else {
            Some(min_source(slot_sources(iters@)) as usize)
        },
        r is None ==> forall|j: int| 0 <= j < iters@.len() ==> (#[trigger] iters@[j]) is None,
        r matches Some(t) ==> {
            &&& t == min_source(slot_sources(iters@))
            &&& t < iters@.len()
            &&& iters@[t as int] is Some
            &&& forall|j: int|
                0 <= j < iters@.len() && j != t && (#[trigger] iters@[j]) is Some ==> head_before(
                    slot_sources(iters@),
                    t as int,
                    j,
                )
        },
{
    let ghost s = slot_sources(iters@);
    let n = iters.len();
    let mut best: Option<usize> = None;
    let mut i: usize = 0;
    while i < n
        invariant
            n == iters@.len(),
            s == slot_sources(iters@),
            slots_ok(iters@),
            i <= n,
            best == if min_source(s.take(i as int)) < 0 {
                None::<usize>
            } else {
                Some(min_source(s.take(i as int)) as usize)
            },
        decreases n - i,
    {
        proof {
            assert(s.take(i + 1).drop_last() =~= s.take(i as int));
            lemma_min_source(s.take(i as int));
        }
        match iters[i].as_ref() {
            None => {},
            Some(candidate) => {
                match best {
                    None => {
                        best = Some(i);
                    },
                    Some(b) => {
                        let current_best = iters[b].as_ref().unwrap();
                        if slice_lt(candidate.key().raw_ref(), current_best.key().raw_ref()) {
                            best = Some(i);
                        }
                    },
                }
            },
        }
        i += 1;
    }
    assert(s.take(n as int) =~= s);
    proof {
        lemma_min_source(s);
        assert forall|j: int| 0 <= j < iters@.len() && (#[trigger] iters@[j]) is Some implies s[j].len() > 0 by {}
        if best is None {
            assert forall|j: int| 0 <= j < iters@.len() implies (#[trigger] iters@[j]) is None by {
                if iters@[j] is Some {
                    assert(s[j].len() > 0);
                }
            }
        }
    }
    best
}

/// Whether two byte strings are equal.
fn keys_equal(a: &[u8], b: &[u8]) -> (r: bool)
    ensures
        r == (a@ == b@),
{
    let r = !slice_lt(a, b) && !slice_lt(b, a);
    proof {
        if a@ != b@ {
            lemma_key_lt_total(a@, b@);
        } else {
            lemma_key_lt_irreflexive(a@);
        }
    }
    r
}

impl<I: StorageIterator> MergeIterator<I> {
    /// What each input has still to yield, by input index.
    pub closed spec fn sources(&self) -> Seq<Seq<(Seq<u8>, Seq<u8>)>> {
        let s = slot_sources(self.iters@);
        match self.current {
            Some(c) => s.update(c.0 as int, c.1.remaining()),
            None => s,
        }
    }

    /// The index of the input whose iterator is the current one, or -1 where
    /// there is none.
    pub closed spec fn current_input(&self) -> int {
        match self.current {
            Some(c) => c.0 as int,
            None => -1,
        }
    }

    /// The current iterator, if any, is well formed, has pairs left, sits
    /// beside an empty slot, and its current pair comes before that of every
    /// other input.
    pub closed spec fn merge_wf(&self) -> bool {
        &&& slots_ok(self.iters@)
        &&& match self.current {
            None => forall|i: int| 0 <= i < self.iters@.len() ==> (#[trigger] self.iters@[i]) is None,
            Some(c) => {
                &&& c.0 < self.iters@.len()
                &&& self.iters@[c.0 as int] is None
                &&& c.1.wf()
                &&& c.1.remaining().len() > 0
                &&& forall|j: int|
                    0 <= j < self.iters@.len() && j != c.0 && (#[trigger] self.sources()[j]).len() > 0
                        ==> head_before(self.sources(), c.0 as int, j)
            },
        }
    }

    /// Merges the inputs, whatever their order: the first pair is the current
    /// pair with the smallest key, from the input with the smallest index
    /// among those whose current key it is; inputs with nothing left are
    /// dropped.
    pub fn create(iters: Vec<Box<I>>) -> (m: Self)
        requires
            forall|i: int| 0 <= i < iters@.len() ==> (#[trigger] iters@[i]).wf(),
        ensures
            m.sources() == Seq::new(iters@.len(), |i: int| iters@[i].remaining()),
            m.current_input() == min_source(m.sources()),
            m.wf(),
            m.remaining() == merged(Seq::new(iters@.len(), |i: int| iters@[i].remaining())),
    {
        let ghost inputs = iters@;
        let n = iters.len();
        let mut slots: Vec<Option<Box<I>>> = Vec::new();
        let mut j: usize = 0;
        while j < n
            invariant
                j <= n,
                slots@.len() == j,
                forall|i: int| 0 <= i < j ==> (#[trigger] slots@[i]) is None,
            decreases n - j,
        {
            slots.push(None);
            j += 1;
        }
        let mut iters = iters;
        assert(inputs.take(n as int) =~= inputs);
        while iters.len() > 0
            invariant
                n == inputs.len(),
                slots@.len() == n,
                iters@.len() <= n,
                iters@ == inputs.take(iters@.len() as int),
                forall|i: int| 0 <= i < iters@.len() ==> (#[trigger] slots@[i]) is None,
                forall|i: int| 0 <= i < inputs.len() ==> (#[trigger] inputs[i]).wf(),
                slots_ok(slots@),
                forall|i: int|
                    iters@.len() <= i < n ==> (#[trigger] slot_sources(slots@)[i]) == inputs[i].remaining(),
            decreases iters@.len(),
        {
            let ghost before = slots@;
            let ghost before_iters = iters@;
            let iter = iters.pop().unwrap();
            assert(before_iters.last() == inputs.take(before_iters.len() as int)[before_iters.len() - 1]);
            let idx = iters.len();
            assert(iter == inputs[idx as int]);
            assert(inputs[idx as int].wf());
            assert(iter.wf());
            let ghost rem = iter.remaining();
            let valid = iter.is_valid();
            assert(valid == (rem.len() > 0));
            if valid {
                slots.set(idx, Some(iter));
            }
            proof {
                assert(iters@ =~= inputs.take(idx as int));
                assert(slot_sources(slots@)[idx as int] == rem);
                assert forall|i: int| idx <= i < n implies (#[trigger] slot_sources(slots@)[i])
                    == inputs[i].remaining() by {
                    if i > idx {
                        assert(slots@[i] == before[i]);
                        assert(slot_sources(before)[i] == inputs[i].remaining());
                    }
                }
            }
        }
        let ghost pre = slot_sources(slots@);
        assert(pre =~= Seq::new(inputs.len(), |i: int| inputs[i].remaining()));
        let current = match min_slot(&slots) {
            None => None,
            Some(t) => {
                let mut taken: Option<Box<I>> = None;
                std::mem::swap(&mut taken, &mut slots[t]);
                Some(HeapWrapper(t, taken.unwrap()))
            },
        };
        let m = Self { iters: slots, current, failure: Ghost(None) };
        proof {
            assert(m.sources() =~= pre);
            lemma_min_source(pre);
            if m.current is Some {
                let c = m.current->0;
                assert forall|j: int|
                    0 <= j < m.iters@.len() && j != c.0 && (#[trigger] m.sources()[j]).len() > 0 implies head_before(
                    m.sources(),
                    c.0 as int,
                    j,
                ) by {
                    assert(m.iters@[j] is Some);
                }
            }
        }
        m
    }
}

impl<I: StorageIterator> MergeIterator<I> {
    /// A well-formed merging iterator holds a current iterator exactly when
    /// pairs remain, and the first pair to come is the current iterator's.
    proof fn lemma_current_first(&self)
        requires
            self.merge_wf(),
        ensures
            self.current is None <==> merged(self.sources()).len() == 0,
            self.current matches Some(c) ==> merged(self.sources())[0] == c.1.remaining()[0],
    {
        let s = self.sources();
        lemma_min_source(s);
        match self.current {
            None => {
                assert forall|j: int| 0 <= j < s.len() implies (#[trigger] s[j]).len() == 0 by {
                    assert(self.iters@[j] is None);
                }
            },
            Some(c) => {
                lemma_min_source_unique(s, c.0 as int);
            },
        }
    }
}

impl<I: StorageIterator> MergeIterator<I> {
    /// What a merging iterator yields is the merge of what its inputs hold,
    /// and where it is well formed its current input is the one whose current
    /// pair comes first.
    pub proof fn lemma_remaining_merged(&self)
        ensures
            self.remaining() == merged(self.sources()),
            self.wf() ==> self.current_input() == min_source(self.sources()),
    {
        if self.wf() {
            assert(self.merge_wf());
            self.lemma_current_first();
            let s = self.sources();
            lemma_min_source(s);
            if self.current is None {
                assert forall|j: int| 0 <= j < s.len() implies (#[trigger] s[j]).len() == 0 by {
                    assert(self.iters@[j] is None);
                }
            }
            if let Some(c) = self.current {
                lemma_min_source_unique(self.sources(), c.0 as int);
            }
        }
    }
}

impl<I: StorageIterator> StorageIterator for MergeIterator<I> {
    closed spec fn wf(&self) -> bool {
        self.merge_wf()
    }

    closed spec fn remaining(&self) -> Seq<(Seq<u8>, Seq<u8>)> {
        merged(self.sources())
    }

    /// An input's step failed, and a step of the merge passed that on.
    closed spec fn step_failed(&self) -> bool {
        self.failure@ matches Some(x) && x.step_failed()
    }

    /// A merge with nothing left steps no input and succeeds. A step that
    /// succeeds is a step of the merge (`merge_step`); one that fails leaves
    /// what `failed_step` describes.
    #[verifier::rlimit(30)]
    fn next(&mut self) -> (r: Result<(), anyhow::Error>)
        ensures
            old(self).remaining().len() == 0 ==> r is Ok,
            r is Ok ==> final(self).sources() == merge_step(old(self).sources()),
            r is Err ==> failed_step(old(self).sources(), final(self).sources(), final(self).current_input()),
    {
        let mut taken: Option<HeapWrapper<I>> = None;
        std::mem::swap(&mut taken, &mut self.current);
        proof {
            old(self).lemma_current_first();
        }
        let mut cur = match taken {
            None => {
                assert(self.sources() =~= old(self).sources());
                proof {
                    let s = old(self).sources();
                    lemma_min_source(s);
                    assert forall|j: int| 0 <= j < s.len() implies (#[trigger] s[j]).len() == 0 by {
                        assert(old(self).iters@[j] is None);
                    }
                }
                return Ok(());
            },
            Some(c) => c,
        };
        let ghost s0 = old(self).sources();
        let ghost c = cur.0 as int;
        let ghost k = cur.1.remaining()[0].0;
        let ghost n = self.iters@.len();
        proof {
            lemma_min_source_unique(s0, c);
            assert(slot_sources(self.iters@).update(c, s0[c]) =~= s0);
            assert forall|j: int| 0 <= j < n implies key_prefix_dropped(
                s0[j],
                #[trigger] slot_sources(self.iters@).update(c, s0[c])[j],
                k,
            ) by {
                assert(s0[j].skip(0) =~= s0[j]);
            }
        }
        let mut done = false;
        while !done
            invariant
                self.iters@.len() == n,
                0 <= c < n,
                cur.0 == c,
                s0 == old(self).sources(),
                s0.len() == n,
                min_source(s0) == c,
                s0[c].len() > 0,
                s0[c][0].0 == k,
                self.iters@[c] is None,
                cur.1.wf(),
                cur.1.remaining() == s0[c],
                slots_ok(self.iters@),
                skip_key(slot_sources(self.iters@).update(c, s0[c]), c, k) == skip_key(s0, c, k),
                forall|j: int|
                    0 <= j < n ==> key_prefix_dropped(
                        s0[j],
                        #[trigger] slot_sources(self.iters@).update(c, s0[c])[j],
                        k,
                    ),
                done ==> skip_key(slot_sources(self.iters@).update(c, s0[c]), c, k) == slot_sources(
                    self.iters@,
                ).update(c, s0[c]),
            decreases total_len(slot_sources(self.iters@)) + if done {
                0int
            } else {
                1int
            },
        {
            let ghost ss = slot_sources(self.iters@);
            let ghost st = ss.update(c, s0[c]);
            proof {
                assert(st.update(c, Seq::empty()) =~= ss);
                lemma_min_source(ss);
            }
            proof {
                lemma_skip_key_unfold(st, c, k);
            }
            match min_slot(&self.iters) {
                None => {
                    assert(min_source(st.update(c, Seq::empty())) < 0);
                    done = true;
                },
                Some(t) => {
                    let same = keys_equal(self.iters[t].as_ref().unwrap().key().raw_ref(), cur.1.key().raw_ref());
                    proof {
                        assert(min_source(st.update(c, Seq::empty())) == t);
                        assert(st[t as int] == ss[t as int]);
                        assert(same == (st[t as int][0].0 == k));
                    }
                    if !same {
                        done = true;
                    } else {
                        let mut slot: Option<Box<I>> = None;
                        std::mem::swap(&mut slot, &mut self.iters[t]);
                        let mut it = slot.unwrap();
                        let ghost before = it.remaining();
                        proof {
                            assert(ss[t as int] == before);
                            lemma_skip_key_unfold(st, c, k);
                        }
                        match it.next() {
                            Err(e) => {
                                self.current = Some(cur);
                                self.failure = Ghost(Some(*it));
                                proof {
                                    let s = self.sources();
                                    assert(s.len() == n);
                                    assert(s[t as int].len() == 0);
                                    assert(s[c] == s0[c]);
                                    assert forall|j: int| 0 <= j < n && j != t && j != c implies key_prefix_dropped(
                                        s0[j],
                                        #[trigger] s[j],
                                        k,
                                    ) by {
                                        assert(s[j] == st[j]);
                                    }
                                    let d = choose|d: int|
                                        0 <= d <= s0[t as int].len() && st[t as int] == #[trigger] s0[t as int].skip(d)
                                            && forall|x: int| 0 <= x < d ==> (#[trigger] s0[t as int][x]).0 == k;
                                    assert(st[t as int][0] == s0[t as int][d]);
                                    assert(s0[t as int].len() > 0);
                                    assert(s0[t as int][0].0 == k);
                                    assert(self.current_input() == c);
                                    assert(t != c);
                                }
                                return Err(e);
                            },
                            Ok(()) => {},
                        }
                        assert(it.remaining() == before.drop_first());
                        let valid = it.is_valid();
                        if valid {
                            self.iters.set(t, Some(it));
                        }
                        proof {
                            let ns = slot_sources(self.iters@);
                            assert(ns[t as int] == before.drop_first());
                            assert(ns =~= ss.update(t as int, before.drop_first()));
                            lemma_total_len_update(ss, t as int, before.drop_first());
                            assert(ns.update(c, s0[c]) =~= st.update(t as int, before.drop_first()));
                            assert forall|j: int| 0 <= j < n implies key_prefix_dropped(
                                s0[j],
                                #[trigger] ns.update(c, s0[c])[j],
                                k,
                            ) by {
                                if j == t {
                                    let d = choose|d: int|
                                        0 <= d <= s0[j].len() && st[j] == #[trigger] s0[j].skip(d) && forall|x: int|
                                            0 <= x < d ==> (#[trigger] s0[j][x]).0 == k;
                                    assert(st[j][0] == s0[j][d]);
                                    assert(ns.update(c, s0[c])[j] =~= s0[j].skip(d + 1));
                                    assert forall|x: int| 0 <= x < d + 1 implies (#[trigger] s0[j][x]).0 == k by {}
                                } else {
                                    assert(ns.update(c, s0[c])[j] == st[j]);
                                }
                            }
                        }
                    }
                },
            }
        }
        let ghost st = slot_sources(self.iters@).update(c, s0[c]);
        let ghost s1 = merge_step(s0);
        proof {
            assert(st == skip_key(s0, c, k));
            lemma_skip_key(s0, c, k);
            assert(s1 == st.update(c, s0[c].drop_first()));
        }
        match cur.1.next() {
            Err(e) => {
                self.failure = Ghost(Some(*cur.1));
                self.current = Some(cur);
                proof {
                    let s = self.sources();
                    assert(s.len() == n);
                    assert forall|j: int| 0 <= j < n && j != c implies key_prefix_dropped(s0[j], #[trigger] s[j], k) by {
                        assert(s[j] == st[j]);
                    }
                    assert(self.current_input() == c);
                }
                return Err(e);
            },
            Ok(()) => {},
        }
        assert(cur.1.remaining() == s1[c]);
        let ghost ss = slot_sources(self.iters@);
        assert(forall|j: int| 0 <= j < n && j != c ==> #[trigger] ss[j] == s1[j]);
        assert(ss[c] == Seq::<(Seq<u8>, Seq<u8>)>::empty());
        let cur_valid = cur.1.is_valid();
        assert(cur_valid == (s1[c].len() > 0));
        if !cur_valid {
            self.current = match min_slot(&self.iters) {
                None => None,
                Some(t) => {
                    let mut slot: Option<Box<I>> = None;
                    std::mem::swap(&mut slot, &mut self.iters[t]);
                    Some(HeapWrapper(t, slot.unwrap()))
                },
            };
            proof {
                assert(s1[c] =~= Seq::<(Seq<u8>, Seq<u8>)>::empty());
                assert(ss =~= s1);
                assert(self.sources() =~= s1);
            }
        } else {
            match min_slot(&self.iters) {
                None => {
                    self.current = Some(cur);
                    proof {
                        assert(self.sources() =~= s1);
                    }
                },
                Some(t) => {
                    let top_key = self.iters[t].as_ref().unwrap().key();
                    let cur_key = cur.1.key();
                    let top_first = slice_lt(top_key.raw_ref(), cur_key.raw_ref()) || (keys_equal(
                        top_key.raw_ref(),
                        cur_key.raw_ref(),
                    ) && t < cur.0);
                    proof {
                        assert(ss.update(c, cur.1.remaining()) =~= s1);
                        assert(top_first == head_before(s1, t as int, c));
                        lemma_head_before_total(s1, t as int, c);
                    }
                    if top_first {
                        let mut slot: Option<Box<I>> = None;
                        std::mem::swap(&mut slot, &mut self.iters[t]);
                        let idx = cur.0;
                        self.iters.set(idx, Some(cur.1));
                        self.current = Some(HeapWrapper(t, slot.unwrap()));
                        proof {
                            assert(self.sources() =~= s1);
                            assert forall|j: int|
                                0 <= j < n && j != t && (#[trigger] self.sources()[j]).len() > 0 implies head_before(
                                self.sources(),
                                t as int,
                                j,
                            ) by {
                                if j != c {
                                    assert(self.iters@[j] is Some);
                                }
                            }
                        }
                    } else {
                        self.current = Some(cur);
                        proof {
                            assert(self.sources() =~= s1);
                            assert forall|j: int|
                                0 <= j < n && j != c && (#[trigger] self.sources()[j]).len() > 0 implies head_before(
                                self.sources(),
                                c,
                                j,
                            ) by {
                                if j != t {
                                    assert(self.iters@[j] is Some);
                                    lemma_head_before_transitive(s1, c, t as int, j);
                                }
                            }
                        }
                    }
                },
            }
        }
        proof {
            assert(merged(s0) == seq![s0[c][0]] + merged(s1));
            assert(advanced(merged(s0)) =~= merged(s1));
            assert(merge_step(s0) == s1);
        }
        Ok(())
    }

    fn key(&self) -> (k: KeySlice<'_>) {
        proof {
            self.lemma_current_first();
        }
        self.current.as_ref().unwrap().1.key()
    }

    fn value(&self) -> (v: &[u8]) {
        proof {
            self.lemma_current_first();
        }
        self.current.as_ref().unwrap().1.value()
    }

    /// Valid exactly when some input is current, whether or not the inputs
    /// are sorted.
    fn is_valid(&self) -> (b: bool)
        ensures
            b == (self.current_input() >= 0),
    {
        proof {
            if self.merge_wf() {
                self.lemma_current_first();
            }
        }
        self.current.is_some()
    }
}

} // verus!
