//! Walks the entries of a table in order, block after block.

use crate::block::iterator::BlockIterator;
use crate::error::Error;
use crate::iterators::StorageIterator;
use crate::block::Block;
use crate::key::{
    is_lower_bound, key_equal, key_less, key_lt, keys_increasing, lemma_key_lt_asymmetric,
    lemma_key_lt_total, lemma_key_lt_transitive, lemma_keys_increasing_concat,
    lemma_keys_increasing_skip, lemma_lower_bound_from_neighbours, Entry,
};
use crate::table::{Layout, SsTable};
use std::sync::Arc;
use vstd::prelude::*;

verus! {

impl Layout {
    /// Entry `j` of block `b` is the entry of the table that as many entries
    /// precede as the blocks before `b` hold, and `j` more.
    pub proof fn lemma_entry_index(self, b: int, j: int)
        requires
            0 <= b < self.metas.len(),
            0 <= j < self.block_entries(b).len(),
        ensures
            self.entries_upto(b).len() + j < self.entries().len(),
            self.entries()[self.entries_upto(b).len() + j] == self.block_entries(b)[j],
    {
        self.lemma_entries_split(b);
        let before = self.entries_upto(b);
        let from = self.entries_from(b);
        assert(from == self.block_entries(b) + self.entries_from(b + 1));
        assert((before + from)[before.len() + j] == from[j]);
    }

    /// The first blocks hold no more entries than the first blocks and some
    /// more.
    pub proof fn lemma_entries_upto_grows(self, a: int, b: int)
        requires
            0 <= a <= b,
        ensures
            self.entries_upto(a).len() <= self.entries_upto(b).len(),
        decreases b - a,
    {
        if a < b {
            self.lemma_entries_upto_grows(a, b - 1);
        }
    }

    /// Where the search in the index and the search in the block it chose
    /// leave the iterator is the lower bound of `key` in the whole table:
    /// in block `b` at `p` where the block holds a key at or after `key`, and
    /// at the start of the next block, or the end of the table, where it
    /// does not.
    #[verifier::rlimit(50)]
    pub proof fn lemma_seek_position(self, key: Seq<u8>, b: int, p: int)
        requires
            self.regions_wf(),
            self.consistent(),
            keys_increasing(self.entries()),
            0 <= b < self.metas.len(),
            b > 0 ==> !key_lt(key, self.metas[b].first_key),
            b + 1 < self.metas.len() && !key_lt(key, self.metas[b].first_key) ==> key_lt(
                key,
                self.metas[b + 1].first_key,
            ),
            0 <= p <= self.block_entries(b).len(),
            p > 0 ==> key_lt(self.block_entries(b)[p - 1].0, key),
            p < self.block_entries(b).len() ==> !key_lt(self.block_entries(b)[p].0, key),
        ensures
            is_lower_bound(self.entries(), key, self.entries_upto(b).len() + p),
    {
        let all = self.entries();
        let block = self.block_entries(b);
        let start = self.entries_upto(b).len() as int;
        let at = start + p;
        assert(self.block_consistent(b));
        assert(block.len() >= 1);
        self.lemma_entries_split(b);
        assert(self.entries_from(b) == block + self.entries_from(b + 1));
        assert(at <= all.len());
        if p > 0 {
            self.lemma_entry_index(b, p - 1);
        } else if b > 0 {
            assert(self.block_consistent(b - 1));
            let prev = self.block_entries(b - 1);
            self.lemma_entry_index(b - 1, prev.len() - 1);
            self.lemma_entry_index(b, 0);
            assert(self.entries_upto(b) == self.entries_upto(b - 1) + prev);
            assert(all[at - 1] == prev[prev.len() - 1]);
            assert(key_lt(all[at - 1].0, all[at].0));
            lemma_key_lt_total(key, self.metas[b].first_key);
            if key != self.metas[b].first_key {
                lemma_key_lt_transitive(all[at - 1].0, self.metas[b].first_key, key);
            }
        }
        if p < block.len() {
            self.lemma_entry_index(b, p);
        } else if b + 1 < self.metas.len() {
            assert(self.block_consistent(b + 1));
            self.lemma_entry_index(b + 1, 0);
            assert(self.entries_upto(b + 1) == self.entries_upto(b) + block);
            self.lemma_entry_index(b, 0);
            self.lemma_entry_index(b, p - 1);
            if p - 1 > 0 {
                assert(key_lt(all[start].0, all[start + p - 1].0));
                lemma_key_lt_transitive(block[0].0, block[p - 1].0, key);
            }
            lemma_key_lt_asymmetric(self.metas[b].first_key, key);
            lemma_key_lt_asymmetric(key, self.metas[b + 1].first_key);
        } else {
            assert(self.entries_from(b + 1) =~= Seq::<Entry>::empty());
            assert(at == all.len());
        }
        lemma_lower_bound_from_neighbours(all, key, at);
    }
}

impl SsTable {
    /// In a table whose blocks can all be read, the bounds of the table are
    /// the key of its first entry and the key of its last.
    pub proof fn lemma_bounds_are_ends(&self)
        requires
            self.wf(),
            self.consistent(),
        ensures
            self.entries().len() > 0,
            self.first_key_spec() == self.entries().first().0,
            self.last_key_spec() == self.entries().last().0,
    {
        self.lemma_wf();
        self.lemma_bounds();
        let layout = self.layout();
        let n = layout.metas.len() as int;
        assert(layout.block_consistent(0));
        assert(layout.block_consistent(n - 1));
        layout.lemma_entry_index(0, 0);
        assert(layout.entries_upto(0).len() == 0);
        let last = layout.block_entries(n - 1);
        layout.lemma_entry_index(n - 1, last.len() - 1);
        assert(layout.entries() == layout.entries_upto(n - 1) + last);
    }

    /// In a table whose blocks can all be read and whose keys increase, no
    /// key is before the first key of the table or after its last, each block
    /// spans from its first key to its last, and every key of a block is
    /// before every key of the blocks after it.
    pub proof fn lemma_bounds_are_extremes(&self)
        requires
            self.wf(),
            self.consistent(),
            keys_increasing(self.entries()),
        ensures
            forall|i: int|
                0 <= i < self.entries().len() ==> !key_lt(
                    (#[trigger] self.entries()[i]).0,
                    self.first_key_spec(),
                ) && !key_lt(self.last_key_spec(), self.entries()[i].0),
            forall|b: int|
                0 <= b < self.layout().metas.len() ==> !key_lt(
                    (#[trigger] self.layout().metas[b]).last_key,
                    self.layout().metas[b].first_key,
                ),
            forall|a: int, b: int|
                0 <= a < b < self.layout().metas.len() ==> key_lt(
                    (#[trigger] self.layout().metas[a]).last_key,
                    (#[trigger] self.layout().metas[b]).first_key,
                ),
    {
        self.lemma_bounds_are_ends();
        let layout = self.layout();
        let all = self.entries();
        let n = layout.metas.len() as int;
        assert forall|i: int| 0 <= i < all.len() implies !key_lt(
            (#[trigger] all[i]).0,
            self.first_key_spec(),
        ) && !key_lt(self.last_key_spec(), all[i].0) by {
            crate::key::lemma_key_lt_irreflexive(all[i].0);
            if i > 0 {
                lemma_key_lt_asymmetric(all[0].0, all[i].0);
            }
            if i < all.len() - 1 {
                lemma_key_lt_asymmetric(all[i].0, all[all.len() - 1].0);
            }
        }
        assert forall|b: int| 0 <= b < n implies !key_lt(
            (#[trigger] layout.metas[b]).last_key,
            layout.metas[b].first_key,
        ) by {
            assert(layout.block_consistent(b));
            let block = layout.block_entries(b);
            layout.lemma_entry_index(b, 0);
            layout.lemma_entry_index(b, block.len() - 1);
            crate::key::lemma_key_lt_irreflexive(block[0].0);
            if block.len() > 1 {
                let start = layout.entries_upto(b).len() as int;
                assert(key_lt(all[start].0, all[start + block.len() - 1].0));
                lemma_key_lt_asymmetric(block[0].0, block[block.len() - 1].0);
            }
        }
        assert forall|a: int, b: int| 0 <= a < b < n implies key_lt(
            (#[trigger] layout.metas[a]).last_key,
            (#[trigger] layout.metas[b]).first_key,
        ) by {
            assert(layout.block_consistent(a));
            assert(layout.block_consistent(b));
            let block = layout.block_entries(a);
            layout.lemma_entry_index(a, block.len() - 1);
            layout.lemma_entry_index(b, 0);
            layout.lemma_entries_upto_grows(a + 1, b);
            assert(layout.entries_upto(a + 1) == layout.entries_upto(a) + block);
            let i = layout.entries_upto(a).len() + block.len() - 1;
            let j = layout.entries_upto(b).len() as int;
            assert(key_lt(all[i].0, all[j].0));
        }
    }
}

/// Whether the keys of the block increase from each entry to the next.
fn block_is_sorted(block: &Block) -> (sorted: bool)
    requires
        block.wf(),
    ensures
        sorted == keys_increasing(block.entries()),
{
    let n = block.offsets.len();
    let ghost all = block.entries();
    let mut j: usize = 1;
    proof {
        assert(keys_increasing(all.take(1)));
    }
    while j < n
        invariant
            block.wf(),
            all == block.entries(),
            n == all.len(),
            1 <= j <= n,
            keys_increasing(all.take(j as int)),
        decreases n - j,
    {
        if !key_less(block.entry_key(j - 1), block.entry_key(j)) {
            return false;
        }
        proof {
            let head = all.take(j as int);
            let one = seq![all[j as int]];
            assert(head.last() == all[j - 1]);
            lemma_keys_increasing_concat(head, one);
            assert(head + one =~= all.take(j + 1));
        }
        j += 1;
    }
    proof {
        assert(all.take(n as int) =~= all);
    }
    true
}

impl SsTable {
    /// Whether every block of the table can be read, the index gives the
    /// first and the last key of each, and the keys increase from the first
    /// entry of the table to the last. Reads the whole table.
    #[verifier::rlimit(50)]
    pub fn validate(&self) -> (ok: bool)
        requires
            self.wf(),
        ensures
            ok == (self.consistent() && keys_increasing(self.entries())),
    {
        proof {
            self.lemma_wf();
        }
        let ghost layout = self.layout();
        let n = self.block_meta.len();
        let mut i: usize = 0;
        while i < n
            invariant
                self.wf(),
                layout == self.layout(),
                n == layout.metas.len(),
                i <= n,
                forall|b: int| 0 <= b < i ==> #[trigger] layout.block_consistent(b),
                keys_increasing(layout.entries_upto(i as int)),
            decreases n - i,
        {
            let ghost before = layout.entries_upto(i as int);
            let ghost here = layout.block_entries(i as int);
            let block = match self.read_block(i) {
                Ok(block) => block,
                Err(_) => {
                    assert(!layout.block_consistent(i as int));
                    return false;
                },
            };
            let last = block.offsets.len() - 1;
            let meta = &self.block_meta[i];
            if !key_equal(block.entry_key(0), meta.first_key.as_slice()) || !key_equal(
                block.entry_key(last),
                meta.last_key.as_slice(),
            ) {
                assert(!layout.block_consistent(i as int));
                return false;
            }
            proof {
                layout.lemma_entry_index(i as int, 0);
                layout.lemma_entry_index(i as int, last as int);
                layout.lemma_entries_upto_grows(i + 1, n as int);
                assert(layout.entries_upto(i + 1) == before + here);
                if i > 0 {
                    assert(layout.block_consistent(i - 1));
                    let prev = layout.block_entries(i - 1);
                    layout.lemma_entry_index(i - 1, prev.len() - 1);
                    assert(layout.entries_upto(i as int) == layout.entries_upto(i - 1) + prev);
                    assert(before.last() == prev.last());
                }
            }
            if i > 0 && !key_less(self.block_meta[i - 1].last_key.as_slice(), block.entry_key(0)) {
                proof {
                    let all = layout.entries();
                    let at = before.len() as int;
                    assert(all[at - 1] == before.last());
                    assert(all[at] == here[0]);
                }
                return false;
            }
            if !block_is_sorted(&block) {
                proof {
                    let all = layout.entries();
                    let at = before.len() as int;
                    if keys_increasing(all) {
                        assert forall|a: int, b: int| 0 <= a < b < here.len() implies key_lt(
                            #[trigger] here[a].0,
                            #[trigger] here[b].0,
                        ) by {
                            layout.lemma_entry_index(i as int, a);
                            layout.lemma_entry_index(i as int, b);
                            assert(key_lt(all[at + a].0, all[at + b].0));
                        }
                    }
                }
                return false;
            }
            proof {
                lemma_keys_increasing_concat(before, here);
            }
            i += 1;
        }
        true
    }
}

/// An iterator over the contents of an SSTable.
pub struct SsTableIterator {
    table: Arc<SsTable>,
    blk_iter: BlockIterator,
    blk_idx: usize,
}

impl SsTableIterator {
    /// The iterator walks a readable block of a well-formed table.
    pub closed spec fn wf(&self) -> bool {
        &&& self.table.wf()
        &&& self.blk_idx < self.table.layout().metas.len()
        &&& self.blk_iter.wf()
        &&& self.table.layout().block_readable(self.blk_idx as int)
        &&& self.blk_iter.entries() == self.table.layout().block_entries(self.blk_idx as int)
    }

    /// The table that is walked.
    pub closed spec fn table(&self) -> SsTable {
        *self.table
    }

    /// The index of the block the iterator is in.
    pub closed spec fn block_index(&self) -> int {
        self.blk_idx as int
    }

    /// The iterator stands on the last entry of its block.
    pub closed spec fn at_block_end(&self) -> bool {
        self.blk_iter.position() + 1 == self.blk_iter.entries().len()
    }

    /// The entry the iterator stands on, the rest of its block and the
    /// blocks after it; nothing once the iterator has left its block behind.
    pub closed spec fn rest(&self) -> Seq<Entry> {
        if self.blk_iter.position() < self.blk_iter.entries().len() {
            self.blk_iter.remaining() + self.table.layout().entries_from(self.blk_idx + 1)
        } else {
            Seq::<Entry>::empty()
        }
    }

    /// Create a new iterator and seek to the first key-value pair in the first data block.
    pub fn create_and_seek_to_first(table: Arc<SsTable>) -> (r: Result<Self, Error>)
        requires
            table.wf(),
        ensures
            r is Ok <==> table.layout().block_readable(0),
            match r {
                Ok(iter) => {
                    &&& iter.wf()
                    &&& iter.table() == *table
                    &&& iter.rest() == table.entries()
                },
                Err(e) => e == if table.layout().checksum_ok(0) {
                    Error::Corrupted
                } else {
                    Error::ChecksumMismatch
                },
            },
    {
        match Self::seek_to_inner(&table, 0) {
            Ok((blk_idx, blk_iter)) => {
                proof {
                    table.layout().lemma_entries_split(0);
                    assert(table.layout().entries_upto(0) + table.layout().entries_from(0)
                        =~= table.layout().entries_from(0));
                    blk_iter.lemma_position_in_range();
                    assert(blk_iter.entries().skip(0) =~= blk_iter.entries());
                }
                Ok(Self { table, blk_idx, blk_iter })
            },
            Err(e) => Err(e),
        }
    }

    /// Seek to the first key-value pair in the first data block.
    pub fn seek_to_first(&mut self) -> (r: Result<(), Error>)
        requires
            old(self).wf(),
        ensures
            final(self).table() == old(self).table(),
            r is Ok <==> old(self).table().layout().block_readable(0),
            match r {
                Ok(_) => final(self).wf() && final(self).rest() == final(self).table().entries(),
                Err(e) => *final(self) == *old(self) && e == if old(
                    self,
                ).table().layout().checksum_ok(0) {
                    Error::Corrupted
                } else {
                    Error::ChecksumMismatch
                },
            },
    {
        proof {
            self.table.lemma_wf();
        }
        match Self::seek_to_inner(&self.table, 0) {
            Ok((blk_idx, blk_iter)) => {
                proof {
                    self.table.layout().lemma_entries_split(0);
                    assert(self.table.layout().entries_upto(0) + self.table.layout().entries_from(
                        0,
                    ) =~= self.table.layout().entries_from(0));
                    blk_iter.lemma_position_in_range();
                    assert(blk_iter.entries().skip(0) =~= blk_iter.entries());
                }
                self.blk_idx = blk_idx;
                self.blk_iter = blk_iter;
                Ok(())
            },
            Err(e) => Err(e),
        }
    }

    /// Move to the first key-value pair of the block after the current one.
    pub fn seek_to_next(&mut self) -> (r: Result<(), Error>)
        requires
            old(self).wf(),
            old(self).block_index() + 1 < old(self).table().layout().metas.len(),
        ensures
            final(self).table() == old(self).table(),
            r is Ok <==> old(self).table().layout().block_readable(old(self).block_index() + 1),
            match r {
                Ok(_) => {
                    &&& final(self).wf()
                    &&& final(self).block_index() == old(self).block_index() + 1
                    &&& final(self).rest() == final(self).table().layout().entries_from(
                        final(self).block_index(),
                    )
                },
                Err(e) => *final(self) == *old(self) && e == if old(
                    self,
                ).table().layout().checksum_ok(old(self).block_index() + 1) {
                    Error::Corrupted
                } else {
                    Error::ChecksumMismatch
                },
            },
    {
        proof {
            self.table.lemma_wf();
        }
        match Self::seek_to_inner(&self.table, self.blk_idx + 1) {
            Ok((_, blk_iter)) => {
                proof {
                    blk_iter.lemma_position_in_range();
                    assert(blk_iter.entries().skip(0) =~= blk_iter.entries());
                }
                self.blk_idx += 1;
                self.blk_iter = blk_iter;
                Ok(())
            },
            Err(e) => Err(e),
        }
    }

    /// Create a new iterator and seek to the first key-value pair which >= `key`.
    pub fn create_and_seek_to_key(table: Arc<SsTable>, key: &[u8]) -> (r: Result<Self, Error>)
        requires
            table.wf(),
        ensures
            table.consistent() ==> r is Ok,
            table.layout().index_sorted() && (table.layout().block_readable(
                table.layout().block_for(key@),
            ) ==> keys_increasing(table.layout().block_entries(table.layout().block_for(key@))))
                ==> (r is Err <==> table.layout().seek_fails(key@)),
            match r {
                Ok(iter) => {
                    &&& iter.wf()
                    &&& iter.table() == *table
                    &&& iter.rest().len() <= table.entries().len()
                    &&& iter.rest() == table.entries().skip(
                        table.entries().len() - iter.rest().len(),
                    )
                    &&& table.consistent() && keys_increasing(table.entries()) ==> is_lower_bound(
                        table.entries(),
                        key@,
                        table.entries().len() - iter.rest().len(),
                    )
                },
                Err(e) => !table.consistent() && (e == Error::ChecksumMismatch || e
                    == Error::Corrupted),
            },
    {
        match Self::seek_to_key_inner(&table, key) {
            Ok((blk_idx, blk_iter)) => {
                let iter = Self { table, blk_idx, blk_iter };
                proof {
                    iter.lemma_rest_is_suffix();
                }
                Ok(iter)
            },
            Err(e) => Err(e),
        }
    }

    /// Seek to the first key-value pair which >= `key`.
    pub fn seek_to_key(&mut self, key: &[u8]) -> (r: Result<(), Error>)
        requires
            old(self).wf(),
        ensures
            final(self).table() == old(self).table(),
            old(self).table().consistent() ==> r is Ok,
            old(self).table().layout().index_sorted() && (old(self).table().layout().block_readable(
                old(self).table().layout().block_for(key@),
            ) ==> keys_increasing(
                old(self).table().layout().block_entries(
                    old(self).table().layout().block_for(key@),
                ),
            )) ==> (r is Err <==> old(self).table().layout().seek_fails(key@)),
            match r {
                Ok(_) => {
                    &&& final(self).wf()
                    &&& final(self).rest().len() <= final(self).table().entries().len()
                    &&& final(self).rest() == final(self).table().entries().skip(
                        final(self).table().entries().len() - final(self).rest().len(),
                    )
                    &&& final(self).table().consistent() && keys_increasing(
                        final(self).table().entries(),
                    ) ==> is_lower_bound(
                        final(self).table().entries(),
                        key@,
                        final(self).table().entries().len() - final(self).rest().len(),
                    )
                },
                Err(e) => {
                    &&& *final(self) == *old(self)
                    &&& !old(self).table().consistent()
                    &&& (e == Error::ChecksumMismatch || e == Error::Corrupted)
                },
            },
    {
        match Self::seek_to_key_inner(&self.table, key) {
            Ok((blk_idx, blk_iter)) => {
                self.blk_idx = blk_idx;
                self.blk_iter = blk_iter;
                proof {
                    self.lemma_rest_is_suffix();
                }
                Ok(())
            },
            Err(e) => Err(e),
        }
    }

    /// What is left to walk is the entries of the table without those
    /// before the place where the iterator stands.
    proof fn lemma_rest_is_suffix(&self)
        requires
            self.wf(),
            self.blk_iter.position() < self.blk_iter.entries().len() || self.blk_idx + 1
                == self.table.layout().metas.len(),
        ensures
            self.table.layout().entries_upto(self.blk_idx as int).len() + self.blk_iter.position()
                == self.table.entries().len() - self.rest().len(),
            self.rest().len() <= self.table.entries().len(),
            self.rest() == self.table.entries().skip(
                self.table.entries().len() - self.rest().len(),
            ),
    {
        let layout = self.table.layout();
        let b = self.blk_idx as int;
        let p = self.blk_iter.position();
        let block = layout.block_entries(b);
        self.blk_iter.lemma_position_in_range();
        layout.lemma_entries_split(b);
        let before = layout.entries_upto(b);
        let after = layout.entries_from(b + 1);
        assert(layout.entries_from(b) == block + after);
        assert(layout.entries() == before + (block + after));
        if p < block.len() {
            assert(self.rest() == block.skip(p) + after);
            assert((before + (block + after)).skip(before.len() + p) =~= block.skip(p) + after);
        } else {
            assert(after =~= Seq::<Entry>::empty());
            assert((before + (block + after)).skip(before.len() + p) =~= Seq::<Entry>::empty());
        }
    }

    /// Finds the block that may hold `key` and the place of `key` in it;
    /// where every key of that block is before `key`, moves on to the first
    /// entry of the next block, if there is one.
    #[verifier::rlimit(50)]
    fn seek_to_key_inner(table: &Arc<SsTable>, key: &[u8]) -> (r: Result<
        (usize, BlockIterator),
        Error,
    >)
        requires
            table.wf(),
        ensures
            table.consistent() ==> r is Ok,
            table.layout().index_sorted() && (table.layout().block_readable(
                table.layout().block_for(key@),
            ) ==> keys_increasing(table.layout().block_entries(table.layout().block_for(key@))))
                ==> (r is Err <==> table.layout().seek_fails(key@)),
            match r {
                Ok((blk_idx, blk_iter)) => {
                    &&& blk_idx < table.layout().metas.len()
                    &&& blk_iter.wf()
                    &&& table.layout().block_readable(blk_idx as int)
                    &&& blk_iter.entries() == table.layout().block_entries(blk_idx as int)
                    &&& blk_iter.position() < blk_iter.entries().len() || blk_idx + 1
                        == table.layout().metas.len()
                    &&& table.consistent() && keys_increasing(table.entries()) ==> is_lower_bound(
                        table.entries(),
                        key@,
                        table.layout().entries_upto(blk_idx as int).len() + blk_iter.position(),
                    )
                },
                Err(e) => !table.consistent() && (e == Error::ChecksumMismatch || e
                    == Error::Corrupted),
            },
    {
        proof {
            table.lemma_wf();
        }
        // find_block_idx may land one block early: the key can lie between
        // the last key of that block and the first key of the next
        let mut blk_idx = table.find_block_idx(key);
        let ghost first_idx = blk_idx as int;
        let blk = match table.read_block(blk_idx) {
            Ok(blk) => blk,
            Err(e) => {
                assert(!table.layout().block_consistent(blk_idx as int));
                return Err(e);
            },
        };
        let mut blk_iterator = BlockIterator::create_and_seek_to_key(blk, key);
        let ghost first_pos = blk_iterator.position();
        proof {
            blk_iterator.lemma_position_in_range();
            if table.consistent() && keys_increasing(table.entries()) {
                table.layout().lemma_seek_position(key@, first_idx, first_pos);
            }
            let block = table.layout().block_entries(first_idx);
            if keys_increasing(block) {
                // the block is left behind exactly where its last key is
                // before the key
                let last = block.len() - 1;
                if first_pos < last && key_lt(block[last].0, key@) {
                    lemma_key_lt_transitive(block[first_pos].0, block[last].0, key@);
                }
            }
        }
        if !blk_iterator.is_valid() && blk_idx + 1 < table.num_of_blocks() {
            blk_idx += 1;
            match Self::seek_to_inner(table, blk_idx) {
                Ok((_, next_iter)) => {
                    blk_iterator = next_iter;
                },
                Err(e) => {
                    assert(!table.layout().block_consistent(blk_idx as int));
                    return Err(e);
                },
            }
            proof {
                let layout = table.layout();
                assert(layout.entries_upto(blk_idx as int) == layout.entries_upto(first_idx)
                    + layout.block_entries(first_idx));
            }
        }
        Ok((blk_idx, blk_iterator))
    }

    /// Reads block `idx` and stands on its first entry.
    fn seek_to_inner(table: &Arc<SsTable>, idx: usize) -> (r: Result<(usize, BlockIterator), Error>)
        requires
            table.wf(),
            idx < table.layout().metas.len(),
        ensures
            r is Ok <==> table.layout().block_readable(idx as int),
            match r {
                Ok((blk_idx, blk_iter)) => {
                    &&& blk_idx == idx
                    &&& blk_iter.wf()
                    &&& blk_iter.entries() == table.layout().block_entries(idx as int)
                    &&& blk_iter.position() == 0
                },
                Err(e) => e == if table.layout().checksum_ok(idx as int) {
                    Error::Corrupted
                } else {
                    Error::ChecksumMismatch
                },
            },
    {
        match table.read_block(idx) {
            Ok(blk) => {
                let blk_iter = BlockIterator::create_and_seek_to_first(blk);
                Ok((idx, blk_iter))
            },
            Err(e) => Err(e),
        }
    }
}

impl StorageIterator for SsTableIterator {
    open spec fn inv(&self) -> bool {
        self.wf()
    }

    open spec fn remaining(&self) -> Seq<Entry> {
        self.rest()
    }

    /// Return the `value` that's held by the underlying block iterator.
    fn value(&self) -> (value: &[u8]) {
        proof {
            self.blk_iter.lemma_position_in_range();
            assert(self.rest()[0] == self.blk_iter.remaining()[0]);
        }
        self.blk_iter.value()
    }

    /// Return the `key` that's held by the underlying block iterator.
    fn key(&self) -> (key: &[u8]) {
        proof {
            self.blk_iter.lemma_position_in_range();
            assert(self.rest()[0] == self.blk_iter.remaining()[0]);
        }
        self.blk_iter.key()
    }

    /// Return whether the current block iterator is valid or not.
    fn is_valid(&self) -> (valid: bool) {
        proof {
            self.blk_iter.lemma_position_in_range();
        }
        self.blk_iter.is_valid()
    }

    /// Move to the next `key` in the block, and to the first entry of the
    /// next block from the last entry of one. Fails where that block cannot
    /// be read; the iterator is then exhausted.
    fn next(&mut self) -> (r: Result<(), Error>)
        ensures
            final(self).table() == old(self).table(),
            r is Err <==> old(self).at_block_end() && old(self).block_index() + 1 < old(
                self,
            ).table().layout().metas.len() && !old(self).table().layout().block_readable(
                old(self).block_index() + 1,
            ),
            r is Err ==> final(self).rest().len() == 0,
    {
        proof {
            self.table.lemma_wf();
            self.blk_iter.lemma_position_in_range();
        }
        let ghost block = self.blk_iter.entries();
        let ghost at = self.blk_iter.position();
        let ghost after = self.table.layout().entries_from(self.blk_idx + 1);
        self.blk_iter.next();
        proof {
            assert((block.skip(at) + after).drop_first() =~= block.skip(at + 1) + after);
            if keys_increasing(old(self).rest()) {
                lemma_keys_increasing_skip(old(self).rest(), 1);
                assert(old(self).rest().skip(1) =~= old(self).rest().drop_first());
            }
        }
        if !self.blk_iter.is_valid() && self.blk_idx + 1 < self.table.num_of_blocks() {
            match self.seek_to_next() {
                Ok(_) => {},
                Err(e) => {
                    return Err(e);
                },
            }
            proof {
                assert(block.skip(at + 1) + after =~= after);
            }
        } else if !self.blk_iter.is_valid() {
            proof {
                assert(after =~= Seq::<Entry>::empty());
                assert(block.skip(at + 1) + after =~= Seq::<Entry>::empty());
            }
        }
        Ok(())
    }

    /// A table iterator is one source.
    fn num_active_iterators(&self) -> (n: usize)
        ensures
            n == 1,
    {
        1
    }
}

} // verus!
