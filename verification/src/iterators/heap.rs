//! The priority queue of the merge: a binary heap in a vector, ordered so
//! that the source with the smallest current key surfaces first and, among
//! sources on the same key, the one that was given first.

use crate::iterators::StorageIterator;
use crate::key::{
    key_less, key_lt, keys_increasing, lemma_key_lt_asymmetric, lemma_key_lt_irreflexive,
    lemma_key_lt_total, lemma_key_lt_transitive, Entry,
};
use vstd::prelude::*;

verus! {

/// A source with key `ka` at place `ia` surfaces before one with key `kb`
/// at place `ib`.
pub open spec fn rank_before(ka: Seq<u8>, ia: int, kb: Seq<u8>, ib: int) -> bool {
    key_lt(ka, kb) || (ka == kb && ia < ib)
}

/// Of two sources, one surfaces before the other in one direction at most.
pub proof fn lemma_rank_asymmetric(ka: Seq<u8>, ia: int, kb: Seq<u8>, ib: int)
    requires
        rank_before(ka, ia, kb, ib),
    ensures
        !rank_before(kb, ib, ka, ia),
{
    lemma_key_lt_irreflexive(ka);
    if key_lt(ka, kb) {
        lemma_key_lt_asymmetric(ka, kb);
    }
}

/// Where `b` does not surface before `a` and `c` does not surface before
/// `b`, `c` does not surface before `a`.
pub proof fn lemma_rank_le_transitive(
    ka: Seq<u8>,
    ia: int,
    kb: Seq<u8>,
    ib: int,
    kc: Seq<u8>,
    ic: int,
)
    requires
        !rank_before(kb, ib, ka, ia),
        !rank_before(kc, ic, kb, ib),
    ensures
        !rank_before(kc, ic, ka, ia),
{
    lemma_key_lt_total(ka, kb);
    lemma_key_lt_total(kb, kc);
    if key_lt(kc, ka) {
        if key_lt(ka, kb) {
            lemma_key_lt_transitive(kc, ka, kb);
        }
    } else if kc == ka && ic < ia {
        if key_lt(ka, kb) {
        }
    }
}

/// A source in the queue with the place at which it was given.
pub struct HeapWrapper<I: StorageIterator>(pub usize, pub Box<I>);

impl<I: StorageIterator> HeapWrapper<I> {
    /// The key the source stands on.
    pub open spec fn head(&self) -> Seq<u8> {
        self.1.remaining()[0].0
    }

    /// This source surfaces before the other.
    pub open spec fn before(&self, other: &Self) -> bool {
        rank_before(self.head(), self.0 as int, other.head(), other.0 as int)
    }

    /// The source surfaces at or after a source on `key` at place `idx`.
    pub open spec fn at_or_after(&self, key: Seq<u8>, idx: int) -> bool {
        !rank_before(self.head(), self.0 as int, key, idx)
    }

    /// The source is the one that the model holds at its place, it stands on
    /// an entry, and its keys increase.
    pub open spec fn fits(&self, model: Seq<Seq<Entry>>) -> bool {
        &&& self.1.inv()
        &&& self.0 < model.len()
        &&& model[self.0 as int] == self.1.remaining()
        &&& self.1.remaining().len() > 0
        &&& keys_increasing(self.1.remaining())
    }

    /// Whether this source surfaces before the other: by the key it stands
    /// on, then by its place.
    pub fn precedes(&self, other: &Self) -> (r: bool)
        requires
            self.1.inv(),
            self.1.remaining().len() > 0,
            other.1.inv(),
            other.1.remaining().len() > 0,
        ensures
            r == self.before(other),
    {
        let a = self.1.key();
        let b = other.1.key();
        if key_less(a, b) {
            true
        } else if key_less(b, a) {
            proof {
                lemma_key_lt_irreflexive(a@);
            }
            false
        } else {
            proof {
                lemma_key_lt_total(a@, b@);
            }
            self.0 < other.0
        }
    }
}

/// The place of the parent of place `i` in the heap.
pub open spec fn parent(i: int) -> int {
    (i - 1) / 2
}

/// The source at place `b` does not surface before the one at place `a`.
pub open spec fn le_at<I: StorageIterator>(v: Seq<HeapWrapper<I>>, a: int, b: int) -> bool {
    !v[b].before(&v[a])
}

/// No source surfaces before its parent.
pub open spec fn heap_ordered<I: StorageIterator>(v: Seq<HeapWrapper<I>>) -> bool {
    forall|i: int| 1 <= i < v.len() ==> #[trigger] le_at(v, parent(i), i)
}

/// No source but the one at place `hole` surfaces before its parent, and
/// none of the children of `hole` surfaces before the parent of `hole`.
pub open spec fn heap_ordered_but<I: StorageIterator>(v: Seq<HeapWrapper<I>>, hole: int) -> bool {
    &&& forall|i: int| 1 <= i < v.len() && i != hole ==> #[trigger] le_at(v, parent(i), i)
    &&& hole >= 1 ==> forall|i: int|
        1 <= i < v.len() && parent(i) == hole ==> #[trigger] le_at(v, parent(hole), i)
}

/// No child of the source at place `hole` has to be at or after it; every
/// other source is at or after its parent, and the children of `hole` are at
/// or after its parent.
pub open spec fn heap_ordered_below<I: StorageIterator>(
    v: Seq<HeapWrapper<I>>,
    hole: int,
) -> bool {
    &&& forall|i: int| 1 <= i < v.len() && parent(i) != hole ==> #[trigger] le_at(v, parent(i), i)
    &&& hole >= 1 ==> forall|i: int|
        1 <= i < v.len() && parent(i) == hole ==> #[trigger] le_at(v, parent(hole), i)
}

/// What the queue holds: each source is the one that the model holds at its
/// place, no two sources have the same place, none has a place in `out`,
/// every source of the model that is not empty is in the queue or in `out`,
/// and no source surfaces before a source on `floor_key` at `floor_idx`.
pub open spec fn content_ok<I: StorageIterator>(
    v: Seq<HeapWrapper<I>>,
    model: Seq<Seq<Entry>>,
    out: Set<int>,
    floor_key: Seq<u8>,
    floor_idx: int,
) -> bool {
    &&& forall|j: int|
        0 <= j < v.len() ==> {
            &&& (#[trigger] v[j]).fits(model)
            &&& !out.contains(v[j].0 as int)
            &&& v[j].at_or_after(floor_key, floor_idx)
        }
    &&& forall|j1: int, j2: int|
        0 <= j1 < j2 < v.len() ==> (#[trigger] v[j1]).0 != (#[trigger] v[j2]).0
    &&& forall|i: int|
        0 <= i < model.len() && (#[trigger] model[i]).len() > 0 ==> out.contains(i) || exists|
            j: int,
        |
            0 <= j < v.len() && (#[trigger] v[j]).0 == i
}

/// The sequence with the entries at `a` and `b` exchanged.
pub open spec fn swapped<T>(v: Seq<T>, a: int, b: int) -> Seq<T> {
    v.update(a, v[b]).update(b, v[a])
}

/// Exchanging two sources leaves what the queue holds as it is.
pub proof fn lemma_swap_content<I: StorageIterator>(
    v: Seq<HeapWrapper<I>>,
    a: int,
    b: int,
    model: Seq<Seq<Entry>>,
    out: Set<int>,
    floor_key: Seq<u8>,
    floor_idx: int,
)
    requires
        content_ok(v, model, out, floor_key, floor_idx),
        0 <= a < v.len(),
        0 <= b < v.len(),
    ensures
        content_ok(swapped(v, a, b), model, out, floor_key, floor_idx),
{
    let w = swapped(v, a, b);
    let sw = |j: int|
        if j == a {
            b
        } else if j == b {
            a
        } else {
            j
        };
    assert forall|j: int| 0 <= j < w.len() implies w[j] == v[sw(j)] by {}
    assert forall|j: int| 0 <= j < w.len() implies {
        &&& (#[trigger] w[j]).fits(model)
        &&& !out.contains(w[j].0 as int)
        &&& w[j].at_or_after(floor_key, floor_idx)
    } by {
        assert(w[j] == v[sw(j)]);
    }
    assert forall|j1: int, j2: int| 0 <= j1 < j2 < w.len() implies (#[trigger] w[j1]).0 != (
    #[trigger] w[j2]).0 by {
        assert(w[j1] == v[sw(j1)]);
        assert(w[j2] == v[sw(j2)]);
        if sw(j1) < sw(j2) {
            assert(v[sw(j1)].0 != v[sw(j2)].0);
        } else {
            assert(v[sw(j2)].0 != v[sw(j1)].0);
        }
    }
    assert forall|i: int|
        0 <= i < model.len() && (#[trigger] model[i]).len() > 0 && !out.contains(
            i,
        ) implies exists|j: int| 0 <= j < w.len() && (#[trigger] w[j]).0 == i by {
        let j0 = choose|j: int| 0 <= j < v.len() && (#[trigger] v[j]).0 == i;
        assert(w[sw(j0)] == v[j0]);
    }
}

/// What the queue holds stays what it is under a floor that does not surface
/// after the one it had.
pub proof fn lemma_floor_lower<I: StorageIterator>(
    v: Seq<HeapWrapper<I>>,
    model: Seq<Seq<Entry>>,
    out: Set<int>,
    floor_key: Seq<u8>,
    floor_idx: int,
    key: Seq<u8>,
    idx: int,
)
    requires
        content_ok(v, model, out, floor_key, floor_idx),
        !rank_before(floor_key, floor_idx, key, idx),
    ensures
        content_ok(v, model, out, key, idx),
{
    assert forall|j: int| 0 <= j < v.len() implies (#[trigger] v[j]).at_or_after(key, idx) by {
        assert(v[j].at_or_after(floor_key, floor_idx));
        lemma_rank_le_transitive(key, idx, floor_key, floor_idx, v[j].head(), v[j].0 as int);
    }
}

/// What an ordered queue holds stays what it is under any floor that its
/// root does not surface before.
pub proof fn lemma_floor_at_root<I: StorageIterator>(
    v: Seq<HeapWrapper<I>>,
    model: Seq<Seq<Entry>>,
    out: Set<int>,
    floor_key: Seq<u8>,
    floor_idx: int,
    key: Seq<u8>,
    idx: int,
)
    requires
        content_ok(v, model, out, floor_key, floor_idx),
        heap_ordered(v),
        v.len() > 0 ==> v[0].at_or_after(key, idx),
    ensures
        content_ok(v, model, out, key, idx),
{
    assert forall|j: int| 0 <= j < v.len() implies (#[trigger] v[j]).at_or_after(key, idx) by {
        lemma_root_first(v, j);
        lemma_rank_le_transitive(
            key,
            idx,
            v[0].head(),
            v[0].0 as int,
            v[j].head(),
            v[j].0 as int,
        );
    }
}

/// A place whose source is empty in the model need not be kept out of the
/// queue.
pub proof fn lemma_out_shrink<I: StorageIterator>(
    v: Seq<HeapWrapper<I>>,
    model: Seq<Seq<Entry>>,
    out: Set<int>,
    floor_key: Seq<u8>,
    floor_idx: int,
    place: int,
)
    requires
        content_ok(v, model, out, floor_key, floor_idx),
        0 <= place < model.len() ==> model[place].len() == 0,
    ensures
        content_ok(v, model, out.remove(place), floor_key, floor_idx),
{
    let left = out.remove(place);
    assert forall|i: int|
        0 <= i < model.len() && (#[trigger] model[i]).len() > 0 && !left.contains(
            i,
        ) implies exists|j: int| 0 <= j < v.len() && (#[trigger] v[j]).0 == i by {
        assert(!out.contains(i));
    }
}

/// Changing the model at a place that is kept out of the queue leaves what
/// the queue holds as it is.
pub proof fn lemma_model_update<I: StorageIterator>(
    v: Seq<HeapWrapper<I>>,
    model: Seq<Seq<Entry>>,
    out: Set<int>,
    floor_key: Seq<u8>,
    floor_idx: int,
    place: int,
    rest: Seq<Entry>,
)
    requires
        content_ok(v, model, out, floor_key, floor_idx),
        0 <= place < model.len(),
        out.contains(place),
    ensures
        content_ok(v, model.update(place, rest), out, floor_key, floor_idx),
{
    let changed = model.update(place, rest);
    assert forall|j: int| 0 <= j < v.len() implies (#[trigger] v[j]).fits(changed) by {
        assert(v[j].fits(model));
        assert(!out.contains(v[j].0 as int));
    }
    assert forall|i: int|
        0 <= i < changed.len() && (#[trigger] changed[i]).len() > 0 && !out.contains(
            i,
        ) implies exists|j: int| 0 <= j < v.len() && (#[trigger] v[j]).0 == i by {
        assert(changed[i] == model[i]);
    }
}

/// In an ordered heap no source surfaces before the one at the root.
pub proof fn lemma_root_first<I: StorageIterator>(v: Seq<HeapWrapper<I>>, j: int)
    requires
        heap_ordered(v),
        0 <= j < v.len(),
    ensures
        !v[j].before(&v[0]),
    decreases j,
{
    if j == 0 {
        lemma_key_lt_irreflexive(v[0].head());
    } else {
        let p = parent(j);
        lemma_root_first(v, p);
        assert(le_at(v, p, j));
        lemma_rank_le_transitive(
            v[0].head(),
            v[0].0 as int,
            v[p].head(),
            v[p].0 as int,
            v[j].head(),
            v[j].0 as int,
        );
    }
}

/// Exchanges the entries at `i` and `j`.
pub(crate) fn swap_entries<T>(v: &mut Vec<T>, i: usize, j: usize)
    requires
        i < j < old(v).len(),
    ensures
        final(v)@ == swapped(old(v)@, i as int, j as int),
{
    let (head, tail) = v.split_at_mut(j);
    core::mem::swap(&mut head[i], &mut tail[0]);
}

/// Adds a source to the queue: puts it last, then lets it rise past every
/// parent that it surfaces before.
#[verifier::rlimit(50)]
pub(crate) fn heap_push<I: StorageIterator>(
    v: &mut Vec<HeapWrapper<I>>,
    e: HeapWrapper<I>,
    Ghost(model): Ghost<Seq<Seq<Entry>>>,
    Ghost(out): Ghost<Set<int>>,
    Ghost(floor_key): Ghost<Seq<u8>>,
    Ghost(floor_idx): Ghost<int>,
)
    requires
        heap_ordered(old(v)@),
        content_ok(old(v)@, model, out, floor_key, floor_idx),
        e.fits(model),
        e.at_or_after(floor_key, floor_idx),
        out.contains(e.0 as int),
    ensures
        heap_ordered(final(v)@),
        content_ok(final(v)@, model, out.remove(e.0 as int), floor_key, floor_idx),
        final(v)@.len() == old(v)@.len() + 1,
{
    let ghost left = out.remove(e.0 as int);
    let ghost place = e.0 as int;
    v.push(e);
    let mut k: usize = v.len() - 1;
    proof {
        let w = v@;
        assert forall|j: int| 0 <= j < w.len() implies {
            &&& (#[trigger] w[j]).fits(model)
            &&& !left.contains(w[j].0 as int)
            &&& w[j].at_or_after(floor_key, floor_idx)
        } by {
            if j < w.len() - 1 {
                assert(w[j] == old(v)@[j]);
            }
        }
        assert forall|j1: int, j2: int| 0 <= j1 < j2 < w.len() implies (#[trigger] w[j1]).0 != (
        #[trigger] w[j2]).0 by {
            assert(w[j1] == old(v)@[j1]);
            if j2 < w.len() - 1 {
                assert(w[j2] == old(v)@[j2]);
            }
        }
        assert forall|i: int|
            0 <= i < model.len() && (#[trigger] model[i]).len() > 0 && !left.contains(
                i,
            ) implies exists|j: int| 0 <= j < w.len() && (#[trigger] w[j]).0 == i by {
            if i == place {
                assert(w[w.len() - 1].0 == i);
            } else {
                let j0 = choose|j: int| 0 <= j < old(v)@.len() && (#[trigger] old(v)@[j]).0 == i;
                assert(w[j0] == old(v)@[j0]);
            }
        }
        assert forall|i: int| 1 <= i < w.len() && i != k implies #[trigger] le_at(
            w,
            parent(i),
            i,
        ) by {
            assert(le_at(old(v)@, parent(i), i));
        }
    }
    while k > 0
        invariant
            k < v@.len(),
            v@.len() == old(v)@.len() + 1,
            content_ok(v@, model, left, floor_key, floor_idx),
            heap_ordered_but(v@, k as int),
        ensures
            heap_ordered(v@),
            v@.len() == old(v)@.len() + 1,
            content_ok(v@, model, left, floor_key, floor_idx),
        decreases k,
    {
        let p = (k - 1) / 2;
        if !v[k].precedes(&v[p]) {
            proof {
                assert(le_at(v@, parent(k as int), k as int));
            }
            break;
        }
        let ghost before = v@;
        swap_entries(v, p, k);
        proof {
            let w = v@;
            lemma_swap_content(before, p as int, k as int, model, left, floor_key, floor_idx);
            lemma_rank_asymmetric(
                before[k as int].head(),
                before[k as int].0 as int,
                before[p as int].head(),
                before[p as int].0 as int,
            );
            assert forall|i: int| 1 <= i < w.len() && i != p implies #[trigger] le_at(
                w,
                parent(i),
                i,
            ) by {
                if i == k {
                } else if parent(i) == p {
                    // the sibling of k: it was at or after p, which k came before
                    assert(le_at(before, parent(i), i));
                    lemma_rank_le_transitive(
                        before[k as int].head(),
                        before[k as int].0 as int,
                        before[p as int].head(),
                        before[p as int].0 as int,
                        before[i].head(),
                        before[i].0 as int,
                    );
                } else if parent(i) == k {
                    assert(le_at(before, parent(k as int), i));
                } else {
                    assert(le_at(before, parent(i), i));
                }
            }
            if p >= 1 {
                assert forall|i: int| 1 <= i < w.len() && parent(i) == p implies #[trigger] le_at(
                    w,
                    parent(p as int),
                    i,
                ) by {
                    assert(le_at(before, parent(p as int), p as int));
                    if i == k {
                    } else {
                        assert(le_at(before, parent(i), i));
                        lemma_rank_le_transitive(
                            before[parent(p as int)].head(),
                            before[parent(p as int)].0 as int,
                            before[p as int].head(),
                            before[p as int].0 as int,
                            before[i].head(),
                            before[i].0 as int,
                        );
                    }
                }
            }
        }
        k = p;
    }
}

/// Takes the source that surfaces first out of the queue: the last source
/// takes its place at the root and sinks below every child that surfaces
/// before it.
#[verifier::rlimit(50)]
pub(crate) fn heap_pop<I: StorageIterator>(
    v: &mut Vec<HeapWrapper<I>>,
    Ghost(model): Ghost<Seq<Seq<Entry>>>,
    Ghost(out): Ghost<Set<int>>,
    Ghost(floor_key): Ghost<Seq<u8>>,
    Ghost(floor_idx): Ghost<int>,
) -> (e: HeapWrapper<I>)
    requires
        heap_ordered(old(v)@),
        content_ok(old(v)@, model, out, floor_key, floor_idx),
        old(v)@.len() > 0,
    ensures
        e == old(v)@[0],
        e.fits(model),
        e.at_or_after(floor_key, floor_idx),
        !out.contains(e.0 as int),
        heap_ordered(final(v)@),
        content_ok(final(v)@, model, out.insert(e.0 as int), e.head(), e.0 as int),
        final(v)@.len() == old(v)@.len() - 1,
{
    let e = v.swap_remove(0);
    let ghost gone = out.insert(e.0 as int);
    let ghost ek = e.head();
    let ghost ei = e.0 as int;
    let n = v.len();
    proof {
        let w = v@;
        let last = old(v)@.len() - 1;
        let src = |j: int|
            if j == 0 {
                last
            } else {
                j
            };
        assert forall|j: int| 0 <= j < w.len() implies w[j] == old(v)@[src(j)] by {}
        assert forall|j: int| 0 <= j < w.len() implies {
            &&& (#[trigger] w[j]).fits(model)
            &&& !gone.contains(w[j].0 as int)
            &&& w[j].at_or_after(ek, ei)
        } by {
            assert(w[j] == old(v)@[src(j)]);
            lemma_root_first(old(v)@, src(j));
            assert(old(v)@[0].0 != old(v)@[src(j)].0);
        }
        assert forall|j1: int, j2: int| 0 <= j1 < j2 < w.len() implies (#[trigger] w[j1]).0 != (
        #[trigger] w[j2]).0 by {
            assert(w[j1] == old(v)@[src(j1)]);
            assert(w[j2] == old(v)@[src(j2)]);
            if src(j1) < src(j2) {
                assert(old(v)@[src(j1)].0 != old(v)@[src(j2)].0);
            } else {
                assert(old(v)@[src(j2)].0 != old(v)@[src(j1)].0);
            }
        }
        assert forall|i: int|
            0 <= i < model.len() && (#[trigger] model[i]).len() > 0 && !gone.contains(
                i,
            ) implies exists|j: int| 0 <= j < w.len() && (#[trigger] w[j]).0 == i by {
            let j0 = choose|j: int| 0 <= j < old(v)@.len() && (#[trigger] old(v)@[j]).0 == i;
            if j0 == last {
                assert(w[0] == old(v)@[j0]);
            } else {
                assert(w[j0] == old(v)@[j0]);
            }
        }
        assert forall|i: int| 1 <= i < w.len() && parent(i) != 0 implies #[trigger] le_at(
            w,
            parent(i),
            i,
        ) by {
            assert(le_at(old(v)@, parent(i), i));
        }
    }
    let mut k: usize = 0;
    while n >= 2 && k <= (n - 2) / 2
        invariant
            n == v@.len(),
            n == old(v)@.len() - 1,
            k < n || n == 0,
            content_ok(v@, model, gone, ek, ei),
            heap_ordered_below(v@, k as int),
        ensures
            heap_ordered(v@),
            n == v@.len(),
            content_ok(v@, model, gone, ek, ei),
        decreases n - k,
    {
        let left = 2 * k + 1;
        let right = left + 1;
        let mut child = left;
        if right < n && v[right].precedes(&v[left]) {
            child = right;
        }
        let ghost other = if child == left {
            right as int
        } else {
            left as int
        };
        proof {
            if right < n {
                if child == right {
                    lemma_rank_asymmetric(
                        v@[right as int].head(),
                        v@[right as int].0 as int,
                        v@[left as int].head(),
                        v@[left as int].0 as int,
                    );
                }
                assert(le_at(v@, child as int, other));
            }
        }
        if !v[child].precedes(&v[k]) {
            proof {
                let w = v@;
                assert forall|i: int| 1 <= i < w.len() implies #[trigger] le_at(
                    w,
                    parent(i),
                    i,
                ) by {
                    if parent(i) == k {
                        if i != child {
                            assert(i == other);
                            lemma_rank_le_transitive(
                                w[k as int].head(),
                                w[k as int].0 as int,
                                w[child as int].head(),
                                w[child as int].0 as int,
                                w[i].head(),
                                w[i].0 as int,
                            );
                        }
                    }
                }
            }
            break;
        }
        let ghost before = v@;
        swap_entries(v, k, child);
        proof {
            let w = v@;
            lemma_swap_content(before, k as int, child as int, model, gone, ek, ei);
            lemma_rank_asymmetric(
                before[child as int].head(),
                before[child as int].0 as int,
                before[k as int].head(),
                before[k as int].0 as int,
            );
            assert forall|i: int|
                1 <= i < w.len() && parent(i) != child implies #[trigger] le_at(
                w,
                parent(i),
                i,
            ) by {
                if i == child {
                } else if parent(i) == k {
                    assert(i == other);
                } else if i == k {
                    assert(le_at(before, parent(k as int), child as int));
                } else {
                    assert(le_at(before, parent(i), i));
                }
            }
            assert forall|i: int| 1 <= i < w.len() && parent(i) == child implies #[trigger] le_at(
                w,
                parent(child as int),
                i,
            ) by {
                assert(le_at(before, parent(i), i));
            }
        }
        k = child;
    }
    e
}

} // verus!
