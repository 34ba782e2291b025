//! Merges several sorted sources into one sorted stream in which every key
//! comes once, from the source that was given first among those that hold
//! it.

use crate::error::Error;
use crate::iterators::heap::{
    content_ok, heap_ordered, heap_pop, heap_push, lemma_floor_at_root, lemma_floor_lower,
    lemma_model_update, lemma_out_shrink, lemma_rank_asymmetric, rank_before, HeapWrapper,
};
use crate::iterators::merge_model::{
    active_count, advance_past, lemma_active_none, lemma_active_take, lemma_active_update,
    lemma_merged_sorted, lemma_merged_step, lemma_winner, lemma_winner_is, merged, moved_or_kept,
    one_if,
    sources_sorted, winner,
};
use crate::iterators::StorageIterator;
use crate::key::{
    key_equal, key_lt, keys_increasing, lemma_key_lt_irreflexive, lemma_key_lt_total,
    lemma_keys_increasing_skip, Entry,
};
use vstd::prelude::*;

verus! {

/// What each of the iterators has yet to give.
pub open spec fn sources_of<I: StorageIterator>(iters: Seq<Box<I>>) -> Seq<Seq<Entry>> {
    Seq::new(iters.len(), |i: int| iters[i].remaining())
}

/// Every source is empty.
pub open spec fn all_empty(srcs: Seq<Seq<Entry>>) -> bool {
    forall|i: int| 0 <= i < srcs.len() ==> (#[trigger] srcs[i]).len() == 0
}

/// The current source is the one that the model holds at its place; while it
/// stands on an entry, every other source that is not empty is in the queue
/// and none of them surfaces before it; once it is exhausted, so are all.
pub open spec fn current_ok<I: StorageIterator>(
    c: HeapWrapper<I>,
    heap: Seq<HeapWrapper<I>>,
    model: Seq<Seq<Entry>>,
) -> bool {
    &&& c.1.inv()
    &&& c.0 < model.len()
    &&& model[c.0 as int] == c.1.remaining()
    &&& keys_increasing(c.1.remaining())
    &&& if c.1.remaining().len() > 0 {
        content_ok(heap, model, set![c.0 as int], c.head(), c.0 as int)
    } else {
        heap.len() == 0 && all_empty(model)
    }
}

/// The current source, standing on an entry, is the winner among the sources.
pub proof fn lemma_current_wins<I: StorageIterator>(
    c: HeapWrapper<I>,
    heap: Seq<HeapWrapper<I>>,
    model: Seq<Seq<Entry>>,
)
    requires
        current_ok(c, heap, model),
        c.1.remaining().len() > 0,
    ensures
        winner(model) == c.0,
{
    let at = c.0 as int;
    assert forall|j: int|
        0 <= j < model.len() && j != at && (#[trigger] model[j]).len() > 0 implies key_lt(
        model[at][0].0,
        model[j][0].0,
    ) || (model[at][0].0 == model[j][0].0 && at < j) by {
        let p = choose|p: int| 0 <= p < heap.len() && (#[trigger] heap[p]).0 == j;
        assert(heap[p].fits(model));
        assert(heap[p].at_or_after(c.head(), at));
        lemma_key_lt_total(c.head(), heap[p].head());
    }
    lemma_winner_is(model, at);
}

/// Merge multiple iterators of the same type. If the same key occurs multiple times in some
/// iterators, prefer the one with smaller index.
pub struct MergeIterator<I: StorageIterator> {
    iters: Vec<HeapWrapper<I>>,
    current: Option<HeapWrapper<I>>,
    model: Ghost<Seq<Seq<Entry>>>,
}

impl<I: StorageIterator> MergeIterator<I> {
    /// What each source has yet to give, by the place at which the source
    /// was given. A source that is exhausted or was dropped has nothing.
    pub closed spec fn sources(&self) -> Seq<Seq<Entry>> {
        self.model@
    }

    /// The sources are sorted, the queue is an ordered heap of the sources
    /// that stand on an entry, and the current source surfaces first.
    pub closed spec fn wf(&self) -> bool {
        &&& sources_sorted(self.model@)
        &&& self.iters@.len() < usize::MAX
        &&& heap_ordered(self.iters@)
        &&& self.iters@.len() + one_if(self.current_rest().len() > 0) == active_count(self.model@)
        &&& match self.current {
            None => self.iters@.len() == 0 && all_empty(self.model@),
            Some(c) => current_ok(c, self.iters@, self.model@),
        }
    }

    /// What the current source has yet to give, nothing where there is none.
    pub closed spec fn current_rest(&self) -> Seq<Entry> {
        match self.current {
            Some(c) => c.1.remaining(),
            None => Seq::<Entry>::empty(),
        }
    }

    /// Merges the iterators. Of two that hold the same key, the one that
    /// comes first in `iters` gives the entry.
    #[verifier::rlimit(50)]
    pub fn create(iters: Vec<Box<I>>) -> (merge: Self)
        requires
            forall|i: int|
                0 <= i < iters@.len() ==> (#[trigger] iters@[i]).inv() && keys_increasing(
                    iters@[i].remaining(),
                ),
        ensures
            merge.wf(),
            merge.sources() == sources_of(iters@),
    {
        let mut heap: Vec<HeapWrapper<I>> = Vec::new();
        let ghost model = sources_of(iters@);
        let ghost given = iters@;
        let count = iters.len();
        if count == 0 {
            proof {
                lemma_active_none(model);
            }
            return Self { iters: heap, current: None, model: Ghost(model) };
        }
        let mut all_exhausted = true;
        let mut i: usize = 0;
        while i < count
            invariant
                i <= count == iters@.len(),
                iters@ == given,
                model == sources_of(given),
                forall|j: int| 0 <= j < given.len() ==> (#[trigger] given[j]).inv(),
                all_exhausted == forall|j: int| 0 <= j < i ==> (#[trigger] model[j]).len() == 0,
            decreases count - i,
        {
            if iters[i].is_valid() {
                all_exhausted = false;
                assert(model[i as int].len() > 0);
            }
            i += 1;
        }
        let mut iters = iters;
        if all_exhausted {
            let last = iters.pop().unwrap();
            let current = HeapWrapper(0, last);
            proof {
                assert(model[0].len() == 0);
                assert(model[count - 1].len() == 0);
                assert(model[0] =~= current.1.remaining());
                lemma_active_none(model);
            }
            return Self { iters: heap, current: Some(current), model: Ghost(model) };
        }
        let ghost no_key = Seq::<u8>::empty();
        let mut idx: usize = count;
        assert(model.take(idx as int) =~= model);
        while idx > 0
            invariant
                idx <= count == given.len(),
                no_key.len() == 0,
                iters@ == given.take(idx as int),
                model == sources_of(given),
                forall|j: int|
                    0 <= j < given.len() ==> (#[trigger] given[j]).inv() && keys_increasing(
                        given[j].remaining(),
                    ),
                heap@.len() + idx <= count,
                heap@.len() + active_count(model.take(idx as int)) == active_count(model),
                heap_ordered(heap@),
                content_ok(heap@, model, Set::new(|j: int| 0 <= j < idx), no_key, -1),
            decreases idx,
        {
            let ghost out = Set::new(|j: int| 0 <= j < idx);
            idx -= 1;
            let item = iters.pop().unwrap();
            assert(item == given[idx as int]);
            assert(model[idx as int] == item.remaining());
            proof {
                lemma_active_take(model, idx as int);
            }
            if item.is_valid() {
                let entry = HeapWrapper(idx, item);
                heap_push(&mut heap, entry, Ghost(model), Ghost(out), Ghost(no_key), Ghost(-1));
            } else {
                proof {
                    lemma_out_shrink(heap@, model, out, no_key, -1, idx as int);
                }
            }
            assert(out.remove(idx as int) =~= Set::new(|j: int| 0 <= j < idx));
        }
        proof {
            assert(Set::new(|j: int| 0 <= j < idx) =~= Set::<int>::empty());
            let some = choose|j: int| 0 <= j < model.len() && (#[trigger] model[j]).len() > 0;
            assert(model[some].len() > 0);
            assert(sources_sorted(model)) by {
                assert forall|j: int| 0 <= j < model.len() implies keys_increasing(
                    #[trigger] model[j],
                ) by {
                    assert(given[j].inv());
                }
            }
        }
        let current = heap_pop(
            &mut heap,
            Ghost(model),
            Ghost(Set::<int>::empty()),
            Ghost(no_key),
            Ghost(-1),
        );
        assert(Set::<int>::empty().insert(current.0 as int) =~= set![current.0 as int]);
        Self { iters: heap, current: Some(current), model: Ghost(model) }
    }
}

impl<I: StorageIterator> MergeIterator<I> {
    /// The merged stream stands on an entry exactly where the current source
    /// does, and then on the same entry.
    proof fn lemma_front(&self)
        requires
            self.wf(),
        ensures
            merged(self.model@).len() > 0 <==> self.current_rest().len() > 0,
            merged(self.model@).len() > 0 ==> merged(self.model@)[0] == self.current_rest()[0],
    {
        lemma_winner(self.model@);
        if winner(self.model@) >= 0 {
            lemma_merged_step(self.model@);
        }
        if self.current is Some {
            let c = self.current->0;
            if c.1.remaining().len() > 0 {
                lemma_current_wins(c, self.iters@, self.model@);
            }
        }
    }

    /// Puts the current source back in its place once it has moved or
    /// failed: where it is exhausted, the source that surfaces first in the
    /// queue becomes the current one; where a source in the queue surfaces
    /// before it, the two change places.
    #[verifier::rlimit(50)]
    fn settle(
        &mut self,
        current: HeapWrapper<I>,
        Ghost(model): Ghost<Seq<Seq<Entry>>>,
        Ghost(floor_key): Ghost<Seq<u8>>,
        Ghost(floor_idx): Ghost<int>,
    )
        requires
            old(self).iters@.len() < usize::MAX,
            heap_ordered(old(self).iters@),
            sources_sorted(model),
            content_ok(old(self).iters@, model, set![current.0 as int], floor_key, floor_idx),
            current.1.inv(),
            current.0 < model.len(),
            model[current.0 as int] == current.1.remaining(),
            keys_increasing(current.1.remaining()),
            old(self).iters@.len() + one_if(current.1.remaining().len() > 0) == active_count(
                model,
            ),
        ensures
            final(self).wf(),
            final(self).sources() == model,
    {
        let ghost place = current.0 as int;
        let ghost alone = set![place];
        let mut current = current;
        if !current.1.is_valid() {
            if self.iters.len() > 0 {
                let top = heap_pop(
                    &mut self.iters,
                    Ghost(model),
                    Ghost(alone),
                    Ghost(floor_key),
                    Ghost(floor_idx),
                );
                proof {
                    let out = set![place].insert(top.0 as int);
                    lemma_out_shrink(self.iters@, model, out, top.head(), top.0 as int, place);
                    assert(out.remove(place) =~= set![top.0 as int]);
                }
                current = top;
            } else {
                proof {
                    assert forall|i: int| 0 <= i < model.len() implies (#[trigger] model[i]).len()
                        == 0 by {
                        if model[i].len() > 0 {
                            assert(set![place].contains(i));
                        }
                    }
                }
            }
        } else if self.iters.len() > 0 && self.iters[0].precedes(&current) {
            let top = heap_pop(
                &mut self.iters,
                Ghost(model),
                Ghost(alone),
                Ghost(floor_key),
                Ghost(floor_idx),
            );
            proof {
                lemma_rank_asymmetric(top.head(), top.0 as int, current.head(), place);
            }
            let ghost out = set![place].insert(top.0 as int);
            heap_push(
                &mut self.iters,
                current,
                Ghost(model),
                Ghost(out),
                Ghost(top.head()),
                Ghost(top.0 as int),
            );
            assert(out.remove(place) =~= set![top.0 as int]);
            current = top;
        } else {
            proof {
                lemma_floor_at_root(
                    self.iters@,
                    model,
                    set![place],
                    floor_key,
                    floor_idx,
                    current.head(),
                    place,
                );
            }
        }
        self.current = Some(current);
        self.model = Ghost(model);
    }
}

impl<I: StorageIterator> StorageIterator for MergeIterator<I> {
    open spec fn inv(&self) -> bool {
        self.wf()
    }

    open spec fn remaining(&self) -> Seq<Entry> {
        merged(self.sources())
    }

    /// The value of the entry that the merged stream stands on.
    fn value(&self) -> (value: &[u8]) {
        proof {
            self.lemma_front();
        }
        self.current.as_ref().unwrap().1.value()
    }

    /// The key that the merged stream stands on.
    fn key(&self) -> (key: &[u8]) {
        proof {
            self.lemma_front();
        }
        self.current.as_ref().unwrap().1.key()
    }

    /// Whether the merged stream stands on an entry: there is a current
    /// source and it does.
    fn is_valid(&self) -> (valid: bool) {
        proof {
            self.lemma_front();
        }
        match &self.current {
            Some(current) => current.1.is_valid(),
            None => false,
        }
    }

    /// Moves every source that stands on the current key past it, the
    /// sources in the queue first and the current one last, and then lets
    /// the source that surfaces first become the current one. Where a source
    /// fails to move, the step ends with its error; a source of the queue
    /// that failed has left the merge.
    #[verifier::rlimit(50)]
    fn next(&mut self) -> (r: Result<(), Error>)
        ensures
            r is Ok ==> final(self).sources() == advance_past(
                old(self).sources(),
                old(self).remaining()[0].0,
            ),
            r is Err ==> exists|failed: int| #[trigger]
                moved_or_kept(
                    final(self).sources(),
                    old(self).sources(),
                    old(self).remaining()[0].0,
                    failed,
                ),
    {
        let ghost before = self.model@;
        proof {
            self.lemma_front();
        }
        let mut current = self.current.take().unwrap();
        proof {
            lemma_current_wins(current, self.iters@, before);
            lemma_merged_step(before);
        }
        let ghost place = current.0 as int;
        let ghost key = current.head();
        let ghost out = set![place];
        let ghost mut model = before;
        // move the sources of the queue that stand on the same key
        while self.iters.len() > 0
            invariant
                self.iters@.len() < usize::MAX,
                self.iters@.len() + 1 == active_count(model),
                heap_ordered(self.iters@),
                content_ok(self.iters@, model, out, key, place),
                sources_sorted(model),
                sources_sorted(before),
                before == old(self).sources(),
                merged(before).len() > 0,
                merged(before)[0].0 == key,
                out == set![place],
                model.len() == before.len(),
                0 <= place < model.len(),
                model[place] == before[place],
                current.1.inv(),
                current.0 == place,
                current.1.remaining() == before[place],
                current.1.remaining().len() > 0,
                current.head() == key,
                forall|i: int|
                    0 <= i < model.len() ==> (#[trigger] model[i]) == before[i] || (before[i].len()
                        > 0 && before[i][0].0 == key && model[i] == before[i].drop_first()),
            ensures
                self.iters@.len() < usize::MAX,
                self.iters@.len() + 1 == active_count(model),
                heap_ordered(self.iters@),
                content_ok(self.iters@, model, out, key, place),
                sources_sorted(model),
                model.len() == before.len(),
                model[place] == before[place],
                forall|i: int|
                    0 <= i < model.len() ==> (#[trigger] model[i]) == before[i] || (before[i].len()
                        > 0 && before[i][0].0 == key && model[i] == before[i].drop_first()),
                self.iters@.len() > 0 ==> self.iters@[0].head() != key,
            decreases self.iters@.len(), crate::iterators::merge_model::total_len(model),
        {
            if !key_equal(self.iters[0].1.key(), current.1.key()) {
                break;
            }
            let mut top = heap_pop(
                &mut self.iters,
                Ghost(model),
                Ghost(out),
                Ghost(key),
                Ghost(place),
            );
            let ghost at = top.0 as int;
            let ghost both = out.insert(at);
            let ghost moved = top.1.remaining();
            proof {
                lemma_rank_asymmetric(key, place, top.head(), at);
                if !rank_before(key, place, top.head(), at) {
                    lemma_key_lt_total(key, top.head());
                }
                lemma_floor_lower(self.iters@, model, both, top.head(), at, key, place);
                assert(model[at] == before[at]) by {
                    if model[at] != before[at] {
                        assert(keys_increasing(before[at]));
                        assert(key_lt(before[at][0].0, before[at][1].0));
                        lemma_key_lt_irreflexive(key);
                    }
                }
            }
            match top.1.next() {
                Err(e) => {
                    proof {
                        let gone = Seq::<Entry>::empty();
                        lemma_active_update(model, at, gone);
                        lemma_model_update(self.iters@, model, both, key, place, at, gone);
                        model = model.update(at, gone);
                        lemma_out_shrink(self.iters@, model, both, key, place, at);
                        assert(both.remove(at) =~= out);
                    }
                    self.current = Some(current);
                    self.model = Ghost(model);
                    proof {
                        lemma_merged_sorted(self.model@);
                        assert(moved_or_kept(
                            self.sources(),
                            old(self).sources(),
                            old(self).remaining()[0].0,
                            at,
                        ));
                    }
                    return Err(e);
                },
                Ok(_) => {},
            }
            proof {
                let rest = top.1.remaining();
                assert(rest == moved.drop_first());
                lemma_keys_increasing_skip(moved, 1);
                assert(moved.skip(1) =~= rest);
                lemma_model_update(self.iters@, model, both, key, place, at, rest);
                lemma_active_update(model, at, rest);
                crate::iterators::merge_model::lemma_total_len_less(
                    model.update(at, rest),
                    model,
                    at,
                );
                model = model.update(at, rest);
            }
            if top.1.is_valid() {
                proof {
                    assert(key_lt(moved[0].0, moved[1].0));
                    lemma_rank_asymmetric(key, place, top.head(), at);
                }
                heap_push(
                    &mut self.iters,
                    top,
                    Ghost(model),
                    Ghost(both),
                    Ghost(key),
                    Ghost(place),
                );
            } else {
                proof {
                    lemma_out_shrink(self.iters@, model, both, key, place, at);
                }
            }
            assert(both.remove(at) =~= out);
        }
        proof {
            // no source of the queue stands on the key any more
            assert forall|i: int| 0 <= i < model.len() && i != place implies model[i]
                == advance_past(before, key)[i] by {
                if model[i] == before[i] && before[i].len() > 0 && before[i][0].0 == key {
                    let p = choose|p: int|
                        0 <= p < self.iters@.len() && (#[trigger] self.iters@[p]).0 == i;
                    let e = self.iters@[p];
                    let top = self.iters@[0];
                    assert(e.fits(model));
                    crate::iterators::heap::lemma_root_first(self.iters@, p);
                    assert(top.at_or_after(key, place));
                    lemma_key_lt_total(key, top.head());
                    lemma_key_lt_irreflexive(key);
                }
            }
        }
        // move the current source
        let moved = current.1.next();
        proof {
            let rest = current.1.remaining();
            lemma_active_update(model, place, rest);
            lemma_model_update(self.iters@, model, out, key, place, place, rest);
            model = model.update(place, rest);
            assert(sources_sorted(model));
            if moved is Ok {
                assert(model =~= advance_past(before, key));
            } else {
                assert(moved_or_kept(model, before, key, place));
            }
            lemma_merged_sorted(model);
        }
        self.settle(current, Ghost(model), Ghost(key), Ghost(place));
        moved
    }

    /// The number of sources that still stand on an entry.
    fn num_active_iterators(&self) -> (n: usize)
        ensures
            n == active_count(self.sources()),
    {
        proof {
            self.lemma_front();
        }
        let valid = match &self.current {
            Some(current) => current.1.is_valid(),
            None => false,
        };
        if valid {
            self.iters.len() + 1
        } else {
            self.iters.len()
        }
    }
}

} // verus!
