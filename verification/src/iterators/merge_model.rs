//! What merging sorted sources means: the entries of all of them in key
//! order, each key once, taken from the source that comes first among those
//! that hold it.

use crate::key::{
    key_lt, keys_increasing, lemma_key_lt_irreflexive, lemma_key_lt_total,
    lemma_key_lt_transitive, Entry,
};
use vstd::prelude::*;

verus! {

/// Every source has increasing keys.
pub open spec fn sources_sorted(srcs: Seq<Seq<Entry>>) -> bool {
    forall|i: int| 0 <= i < srcs.len() ==> keys_increasing(#[trigger] srcs[i])
}

/// The entries that the sources hold, all together.
pub open spec fn total_len(srcs: Seq<Seq<Entry>>) -> nat
    decreases srcs.len(),
{
    if srcs.len() == 0 {
        0
    } else {
        total_len(srcs.drop_last()) + srcs.last().len()
    }
}

/// Among the first `n` sources, the one whose first entry is emitted next:
/// the one with the smallest first key and, among those with that key, the
/// one that comes first. Negative where all of them are empty.
pub open spec fn winner_upto(srcs: Seq<Seq<Entry>>, n: int) -> int
    decreases n,
{
    if n <= 0 {
        -1
    } else {
        let w = winner_upto(srcs, n - 1);
        if srcs[n - 1].len() == 0 {
            w
        } else if w < 0 {
            n - 1
        } else if key_lt(srcs[n - 1][0].0, srcs[w][0].0) {
            n - 1
        } else {
            w
        }
    }
}

/// The source whose first entry is emitted next, negative where all sources
/// are empty.
pub open spec fn winner(srcs: Seq<Seq<Entry>>) -> int {
    winner_upto(srcs, srcs.len() as int)
}

/// The sources once `key` was emitted: each source that stood on `key` has
/// moved past it.
pub open spec fn advance_past(srcs: Seq<Seq<Entry>>, key: Seq<u8>) -> Seq<Seq<Entry>> {
    Seq::new(
        srcs.len(),
        |i: int|
            if srcs[i].len() > 0 && srcs[i][0].0 == key {
                srcs[i].drop_first()
            } else {
                srcs[i]
            },
    )
}

/// The merged stream of the sources.
pub open spec fn merged(srcs: Seq<Seq<Entry>>) -> Seq<Entry>
    decreases total_len(srcs),
    via merged_decreases
{
    let w = winner(srcs);
    if w < 0 {
        Seq::<Entry>::empty()
    } else {
        seq![srcs[w][0]] + merged(advance_past(srcs, srcs[w][0].0))
    }
}

#[via_fn]
proof fn merged_decreases(srcs: Seq<Seq<Entry>>) {
    let w = winner(srcs);
    if w >= 0 {
        lemma_winner(srcs);
        lemma_advance_shrinks(srcs, srcs[w][0].0, w);
    }
}

/// The winner among the first `n` sources is one of them and not empty, no
/// other of them has a smaller first key, and none before it has the same.
pub proof fn lemma_winner_upto(srcs: Seq<Seq<Entry>>, n: int)
    requires
        0 <= n <= srcs.len(),
    ensures
        -1 <= winner_upto(srcs, n) < n,
        winner_upto(srcs, n) >= 0 ==> srcs[winner_upto(srcs, n)].len() > 0,
        winner_upto(srcs, n) < 0 ==> forall|j: int| 0 <= j < n ==> (#[trigger] srcs[j]).len() == 0,
        winner_upto(srcs, n) >= 0 ==> forall|j: int|
            0 <= j < n && (#[trigger] srcs[j]).len() > 0 ==> {
                &&& !key_lt(srcs[j][0].0, srcs[winner_upto(srcs, n)][0].0)
                &&& srcs[j][0].0 == srcs[winner_upto(srcs, n)][0].0 ==> winner_upto(srcs, n) <= j
            },
    decreases n,
{
    if n > 0 {
        lemma_winner_upto(srcs, n - 1);
        let w0 = winner_upto(srcs, n - 1);
        let w = winner_upto(srcs, n);
        let last = n - 1;
        if srcs[last].len() > 0 && w0 >= 0 {
            let kl = srcs[last][0].0;
            let k0 = srcs[w0][0].0;
            lemma_key_lt_irreflexive(kl);
            if key_lt(kl, k0) {
                assert forall|j: int| 0 <= j < n && (#[trigger] srcs[j]).len() > 0 implies {
                    &&& !key_lt(srcs[j][0].0, kl)
                    &&& srcs[j][0].0 == kl ==> last <= j
                } by {
                    if j < last {
                        if key_lt(srcs[j][0].0, kl) {
                            lemma_key_lt_transitive(srcs[j][0].0, kl, k0);
                        }
                    }
                }
            }
        } else if srcs[last].len() > 0 {
            lemma_key_lt_irreflexive(srcs[last][0].0);
        }
    }
}

/// The winner is a source that is not empty, no source has a smaller first
/// key, and none before it has the same. There is none exactly where every
/// source is empty.
pub proof fn lemma_winner(srcs: Seq<Seq<Entry>>)
    ensures
        -1 <= winner(srcs) < srcs.len(),
        winner(srcs) >= 0 ==> srcs[winner(srcs)].len() > 0,
        winner(srcs) < 0 ==> forall|j: int| 0 <= j < srcs.len() ==> (#[trigger] srcs[j]).len() == 0,
        winner(srcs) >= 0 ==> forall|j: int|
            0 <= j < srcs.len() && (#[trigger] srcs[j]).len() > 0 ==> {
                &&& !key_lt(srcs[j][0].0, srcs[winner(srcs)][0].0)
                &&& srcs[j][0].0 == srcs[winner(srcs)][0].0 ==> winner(srcs) <= j
            },
{
    lemma_winner_upto(srcs, srcs.len() as int);
}

/// A source that is not empty and comes before every other one, by its
/// first key and then by its place, is the winner.
pub proof fn lemma_winner_is(srcs: Seq<Seq<Entry>>, c: int)
    requires
        0 <= c < srcs.len(),
        srcs[c].len() > 0,
        forall|j: int|
            0 <= j < srcs.len() && j != c && (#[trigger] srcs[j]).len() > 0 ==> key_lt(
                srcs[c][0].0,
                srcs[j][0].0,
            ) || (srcs[c][0].0 == srcs[j][0].0 && c < j),
    ensures
        winner(srcs) == c,
{
    lemma_winner(srcs);
    let w = winner(srcs);
    if w != c {
        assert(srcs[w].len() > 0);
        assert(!key_lt(srcs[c][0].0, srcs[w][0].0));
        assert(srcs[c][0].0 == srcs[w][0].0 && c < w);
    }
}

/// Where no source holds more than its counterpart and one holds less, all
/// together hold less.
pub proof fn lemma_total_len_less(a: Seq<Seq<Entry>>, b: Seq<Seq<Entry>>, at: int)
    requires
        a.len() == b.len(),
        forall|i: int| 0 <= i < a.len() ==> (#[trigger] a[i]).len() <= b[i].len(),
        0 <= at < a.len(),
        a[at].len() < b[at].len(),
    ensures
        total_len(a) < total_len(b),
    decreases a.len(),
{
    let a0 = a.drop_last();
    let b0 = b.drop_last();
    assert forall|i: int| 0 <= i < a0.len() implies (#[trigger] a0[i]).len() <= b0[i].len() by {
        assert(a0[i] == a[i]);
        assert(b0[i] == b[i]);
    }
    if at < a.len() - 1 {
        assert(a0[at] == a[at]);
        assert(b0[at] == b[at]);
        lemma_total_len_less(a0, b0, at);
    } else {
        lemma_total_len_le(a0, b0);
    }
}

/// Where no source holds more than its counterpart, all together hold no
/// more.
pub proof fn lemma_total_len_le(a: Seq<Seq<Entry>>, b: Seq<Seq<Entry>>)
    requires
        a.len() == b.len(),
        forall|i: int| 0 <= i < a.len() ==> (#[trigger] a[i]).len() <= b[i].len(),
    ensures
        total_len(a) <= total_len(b),
    decreases a.len(),
{
    if a.len() > 0 {
        let a0 = a.drop_last();
        let b0 = b.drop_last();
        assert forall|i: int| 0 <= i < a0.len() implies (#[trigger] a0[i]).len() <= b0[i].len() by {
            assert(a0[i] == a[i]);
            assert(b0[i] == b[i]);
        }
        lemma_total_len_le(a0, b0);
    }
}

/// Moving past the first key of a source that is not empty leaves fewer
/// entries.
pub proof fn lemma_advance_shrinks(srcs: Seq<Seq<Entry>>, key: Seq<u8>, at: int)
    requires
        0 <= at < srcs.len(),
        srcs[at].len() > 0,
        srcs[at][0].0 == key,
    ensures
        total_len(advance_past(srcs, key)) < total_len(srcs),
{
    lemma_total_len_less(advance_past(srcs, key), srcs, at);
}

/// Sources that are all empty merge to nothing.
pub proof fn lemma_merged_empty(srcs: Seq<Seq<Entry>>)
    requires
        forall|j: int| 0 <= j < srcs.len() ==> (#[trigger] srcs[j]).len() == 0,
    ensures
        merged(srcs) == Seq::<Entry>::empty(),
{
    lemma_winner(srcs);
}

/// The merged stream starts with the first entry of the winner and goes on
/// with the merged stream of the sources moved past its key.
pub proof fn lemma_merged_step(srcs: Seq<Seq<Entry>>)
    requires
        winner(srcs) >= 0,
    ensures
        merged(srcs).len() > 0,
        merged(srcs)[0] == srcs[winner(srcs)][0],
        merged(srcs).drop_first() == merged(advance_past(srcs, srcs[winner(srcs)][0].0)),
{
    let w = winner(srcs);
    let rest = merged(advance_past(srcs, srcs[w][0].0));
    assert(merged(srcs) == seq![srcs[w][0]] + rest);
    assert((seq![srcs[w][0]] + rest).drop_first() =~= rest);
}

/// Every source but the one at `except` is as it was or has moved past
/// `key`.
pub open spec fn moved_or_kept(
    after: Seq<Seq<Entry>>,
    before: Seq<Seq<Entry>>,
    key: Seq<u8>,
    except: int,
) -> bool {
    &&& after.len() == before.len()
    &&& 0 <= except < before.len()
    &&& forall|i: int|
        0 <= i < before.len() && i != except ==> (#[trigger] after[i]) == before[i] || after[i]
            == advance_past(before, key)[i]
}

/// One where the condition holds, zero where it does not.
pub open spec fn one_if(condition: bool) -> nat {
    if condition {
        1
    } else {
        0
    }
}

/// How many of the sources are not empty.
pub open spec fn active_count(srcs: Seq<Seq<Entry>>) -> nat
    decreases srcs.len(),
{
    if srcs.len() == 0 {
        0
    } else {
        active_count(srcs.drop_last()) + one_if(srcs.last().len() > 0)
    }
}

/// Replacing one source changes the number of sources that are not empty
/// by what the source that left and the one that came count.
pub proof fn lemma_active_update(srcs: Seq<Seq<Entry>>, at: int, rest: Seq<Entry>)
    requires
        0 <= at < srcs.len(),
    ensures
        active_count(srcs.update(at, rest)) + one_if(srcs[at].len() > 0) == active_count(srcs)
            + one_if(rest.len() > 0),
    decreases srcs.len(),
{
    let changed = srcs.update(at, rest);
    if at == srcs.len() - 1 {
        assert(changed.drop_last() =~= srcs.drop_last());
    } else {
        assert(changed.drop_last() =~= srcs.drop_last().update(at, rest));
        lemma_active_update(srcs.drop_last(), at, rest);
    }
}

/// Of sources that are all empty, none is not.
pub proof fn lemma_active_none(srcs: Seq<Seq<Entry>>)
    requires
        forall|j: int| 0 <= j < srcs.len() ==> (#[trigger] srcs[j]).len() == 0,
    ensures
        active_count(srcs) == 0,
    decreases srcs.len(),
{
    if srcs.len() > 0 {
        let front = srcs.drop_last();
        assert forall|j: int| 0 <= j < front.len() implies (#[trigger] front[j]).len() == 0 by {
            assert(front[j] == srcs[j]);
        }
        lemma_active_none(front);
    }
}

/// One more source counts one more where it is not empty.
pub proof fn lemma_active_take(srcs: Seq<Seq<Entry>>, k: int)
    requires
        0 <= k < srcs.len(),
    ensures
        active_count(srcs.take(k + 1)) == active_count(srcs.take(k)) + one_if(srcs[k].len() > 0),
{
    assert(srcs.take(k + 1).drop_last() =~= srcs.take(k));
}

/// Every key of every source is after `key`.
pub open spec fn all_above(srcs: Seq<Seq<Entry>>, key: Seq<u8>) -> bool {
    forall|i: int, j: int|
        0 <= i < srcs.len() && 0 <= j < srcs[i].len() ==> key_lt(key, (#[trigger] srcs[i][j]).0)
}

/// Where every key of every source is after `key`, so is every key of the
/// merged stream.
pub proof fn lemma_merged_above(srcs: Seq<Seq<Entry>>, key: Seq<u8>)
    requires
        all_above(srcs, key),
    ensures
        forall|t: int| 0 <= t < merged(srcs).len() ==> key_lt(key, (#[trigger] merged(srcs)[t]).0),
    decreases total_len(srcs),
{
    let w = winner(srcs);
    lemma_winner(srcs);
    if w >= 0 {
        let first = srcs[w][0];
        let next = advance_past(srcs, first.0);
        lemma_advance_shrinks(srcs, first.0, w);
        assert forall|i: int, j: int| 0 <= i < next.len() && 0 <= j < next[i].len() implies key_lt(
            key,
            (#[trigger] next[i][j]).0,
        ) by {
            if srcs[i].len() > 0 && srcs[i][0].0 == first.0 {
                assert(next[i][j] == srcs[i][j + 1]);
            } else {
                assert(next[i][j] == srcs[i][j]);
            }
        }
        lemma_merged_above(next, key);
        let rest = merged(next);
        assert(merged(srcs) == seq![first] + rest);
        assert forall|t: int| 0 <= t < merged(srcs).len() implies key_lt(
            key,
            (#[trigger] merged(srcs)[t]).0,
        ) by {
            if t == 0 {
                assert(merged(srcs)[0] == srcs[w][0]);
            } else {
                assert(merged(srcs)[t] == rest[t - 1]);
            }
        }
    }
}

/// Moving sorted sources past the first key of the winner leaves them
/// sorted, with every key after that one.
pub proof fn lemma_advance_sorted(srcs: Seq<Seq<Entry>>)
    requires
        sources_sorted(srcs),
        winner(srcs) >= 0,
    ensures
        sources_sorted(advance_past(srcs, srcs[winner(srcs)][0].0)),
        all_above(advance_past(srcs, srcs[winner(srcs)][0].0), srcs[winner(srcs)][0].0),
{
    let w = winner(srcs);
    lemma_winner(srcs);
    let key = srcs[w][0].0;
    let next = advance_past(srcs, key);
    assert forall|i: int| 0 <= i < next.len() implies keys_increasing(#[trigger] next[i]) by {
        assert(keys_increasing(srcs[i]));
        if srcs[i].len() > 0 && srcs[i][0].0 == key {
            crate::key::lemma_keys_increasing_skip(srcs[i], 1);
            assert(srcs[i].skip(1) =~= srcs[i].drop_first());
        }
    }
    assert forall|i: int, j: int| 0 <= i < next.len() && 0 <= j < next[i].len() implies key_lt(
        key,
        (#[trigger] next[i][j]).0,
    ) by {
        assert(keys_increasing(srcs[i]));
        if srcs[i].len() > 0 && srcs[i][0].0 == key {
            assert(next[i][j] == srcs[i][j + 1]);
            assert(key_lt(srcs[i][0].0, srcs[i][j + 1].0));
        } else {
            assert(next[i][j] == srcs[i][j]);
            lemma_key_lt_total(key, srcs[i][0].0);
            if j > 0 {
                assert(key_lt(srcs[i][0].0, srcs[i][j].0));
                lemma_key_lt_transitive(key, srcs[i][0].0, srcs[i][j].0);
            }
        }
    }
}

/// The merged stream of sorted sources is sorted: its keys increase, so no
/// key comes twice.
pub proof fn lemma_merged_sorted(srcs: Seq<Seq<Entry>>)
    requires
        sources_sorted(srcs),
    ensures
        keys_increasing(merged(srcs)),
    decreases total_len(srcs),
{
    let w = winner(srcs);
    lemma_winner(srcs);
    if w >= 0 {
        let first = srcs[w][0];
        let next = advance_past(srcs, first.0);
        lemma_advance_shrinks(srcs, first.0, w);
        lemma_advance_sorted(srcs);
        lemma_merged_sorted(next);
        lemma_merged_above(next, first.0);
        let rest = merged(next);
        let all = merged(srcs);
        assert(all == seq![first] + rest);
        assert forall|i: int, j: int| 0 <= i < j < all.len() implies key_lt(
            #[trigger] all[i].0,
            #[trigger] all[j].0,
        ) by {
            assert(all[j] == rest[j - 1]);
            if i > 0 {
                assert(all[i] == rest[i - 1]);
            }
        }
    }
}

/// No entry of `src` has the key `key`.
pub open spec fn lacks_key(src: Seq<Entry>, key: Seq<u8>) -> bool {
    forall|j: int| 0 <= j < src.len() ==> (#[trigger] src[j]).0 != key
}

/// Entry `t` of the merged stream is an entry of source `i`, and no source
/// before `i` holds its key.
pub open spec fn taken_from(srcs: Seq<Seq<Entry>>, t: int, i: int) -> bool {
    &&& 0 <= i < srcs.len()
    &&& exists|j: int| 0 <= j < srcs[i].len() && #[trigger] srcs[i][j] == merged(srcs)[t]
    &&& forall|h: int| 0 <= h < i ==> lacks_key(#[trigger] srcs[h], merged(srcs)[t].0)
}

/// Every entry of the merged stream of sorted sources is an entry of the
/// first source that holds its key: of two sources that hold a key, the one
/// that was given first gives the value.
pub proof fn lemma_merged_precedence(srcs: Seq<Seq<Entry>>, t: int)
    requires
        sources_sorted(srcs),
        0 <= t < merged(srcs).len(),
    ensures
        exists|i: int| #[trigger] taken_from(srcs, t, i),
    decreases total_len(srcs),
{
    let w = winner(srcs);
    lemma_winner(srcs);
    let first = srcs[w][0];
    let key = first.0;
    let next = advance_past(srcs, key);
    let rest = merged(next);
    assert(merged(srcs) == seq![first] + rest);
    if t == 0 {
        assert(srcs[w][0] == merged(srcs)[0]);
        assert forall|h: int| 0 <= h < w implies lacks_key(#[trigger] srcs[h], key) by {
            assert forall|j: int| 0 <= j < srcs[h].len() implies (#[trigger] srcs[h][j]).0
                != key by {
                assert(keys_increasing(srcs[h]));
                if j > 0 {
                    assert(key_lt(srcs[h][0].0, srcs[h][j].0));
                }
            }
        }
        assert(taken_from(srcs, t, w));
    } else {
        lemma_advance_shrinks(srcs, key, w);
        lemma_advance_sorted(srcs);
        let p = t - 1;
        lemma_merged_precedence(next, p);
        lemma_merged_above(next, key);
        let i = choose|i: int| #[trigger] taken_from(next, p, i);
        let entry = rest[p];
        assert(merged(srcs)[t] == entry);
        let j = choose|j: int| 0 <= j < next[i].len() && #[trigger] next[i][j] == entry;
        if srcs[i].len() > 0 && srcs[i][0].0 == key {
            assert(srcs[i][j + 1] == entry);
        } else {
            assert(srcs[i][j] == entry);
        }
        assert forall|h: int| 0 <= h < i implies lacks_key(#[trigger] srcs[h], entry.0) by {
            assert(lacks_key(next[h], entry.0));
            assert forall|j: int| 0 <= j < srcs[h].len() implies (#[trigger] srcs[h][j]).0
                != entry.0 by {
                lemma_key_lt_irreflexive(key);
                if srcs[h].len() > 0 && srcs[h][0].0 == key {
                    if j > 0 {
                        assert(next[h][j - 1] == srcs[h][j]);
                    }
                } else {
                    assert(next[h][j] == srcs[h][j]);
                }
            }
        }
        assert(taken_from(srcs, t, i));
    }
}

/// Every key of every source is a key of the merged stream of sorted
/// sources.
pub proof fn lemma_merged_complete(srcs: Seq<Seq<Entry>>, i: int, j: int)
    requires
        sources_sorted(srcs),
        0 <= i < srcs.len(),
        0 <= j < srcs[i].len(),
    ensures
        exists|t: int| 0 <= t < merged(srcs).len() && (#[trigger] merged(srcs)[t]).0 == srcs[i][j].0,
    decreases total_len(srcs),
{
    let w = winner(srcs);
    lemma_winner(srcs);
    assert(srcs[i].len() > 0);
    let first = srcs[w][0];
    let key = first.0;
    let next = advance_past(srcs, key);
    let rest = merged(next);
    assert(merged(srcs) == seq![first] + rest);
    if srcs[i][j].0 == key {
        assert(merged(srcs)[0].0 == srcs[i][j].0);
    } else {
        lemma_advance_shrinks(srcs, key, w);
        lemma_advance_sorted(srcs);
        let moved = if srcs[i][0].0 == key {
            j - 1
        } else {
            j
        };
        assert(next[i][moved] == srcs[i][j]);
        lemma_merged_complete(next, i, moved);
        let t = choose|t: int| 0 <= t < rest.len() && (#[trigger] rest[t]).0 == next[i][moved].0;
        assert(merged(srcs)[t + 1] == rest[t]);
    }
}

} // verus!
