//! Walks the entries of a block in order, or from the first key at or after a
//! given one.

use crate::block::Block;
use crate::key::{
    is_lower_bound, key_less, key_lt, keys_increasing, lemma_lower_bound_from_neighbours, Entry,
};
use std::sync::Arc;
use vstd::prelude::*;

verus! {

/// Iterates on a block.
pub struct BlockIterator {
    /// The block that is walked.
    block: Arc<Block>,
    /// The index of the entry the iterator stands on; the number of entries
    /// once it is past the end.
    idx: usize,
}

impl BlockIterator {
    /// The block can be read and the position is an entry of it or its end.
    pub closed spec fn wf(&self) -> bool {
        &&& self.block.wf()
        &&& self.idx <= self.block.offsets@.len()
    }

    /// The entries of the block that is walked.
    pub closed spec fn entries(&self) -> Seq<Entry> {
        self.block.entries()
    }

    /// How many entries lie before the one the iterator stands on.
    pub closed spec fn position(&self) -> int {
        self.idx as int
    }

    /// The entry the iterator stands on and those after it.
    pub open spec fn remaining(&self) -> Seq<Entry> {
        self.entries().skip(self.position())
    }

    /// A well-formed iterator stands within its block, which is not empty.
    pub proof fn lemma_position_in_range(&self)
        requires
            self.wf(),
        ensures
            0 <= self.position() <= self.entries().len(),
            self.entries().len() > 0,
    {
    }

    /// Creates a block iterator and seeks to the first entry.
    pub fn create_and_seek_to_first(block: Arc<Block>) -> (iter: Self)
        requires
            block.wf(),
        ensures
            iter.wf(),
            iter.entries() == block.entries(),
            iter.position() == 0,
    {
        Self { block, idx: 0 }
    }

    /// Creates a block iterator and seeks to the first key that is at or
    /// after `key`.
    pub fn create_and_seek_to_key(block: Arc<Block>, key: &[u8]) -> (iter: Self)
        requires
            block.wf(),
        ensures
            iter.wf(),
            iter.entries() == block.entries(),
            iter.position() > 0 ==> key_lt(iter.entries()[iter.position() - 1].0, key@),
            iter.position() < iter.entries().len() ==> !key_lt(
                iter.entries()[iter.position()].0,
                key@,
            ),
            keys_increasing(iter.entries()) ==> is_lower_bound(
                iter.entries(),
                key@,
                iter.position(),
            ),
    {
        let mut iter = Self { block, idx: 0 };
        iter.seek_to_key(key);
        iter
    }

    /// Returns the key of the current entry.
    pub fn key(&self) -> (key: &[u8])
        requires
            self.wf(),
            self.position() < self.entries().len(),
        ensures
            key@ == self.entries()[self.position()].0,
    {
        self.block.entry_key(self.idx)
    }

    /// Returns the value of the current entry.
    pub fn value(&self) -> (value: &[u8])
        requires
            self.wf(),
            self.position() < self.entries().len(),
        ensures
            value@ == self.entries()[self.position()].1,
    {
        self.block.entry_value(self.idx)
    }

    /// Returns true if the iterator stands on an entry, false once it is past
    /// the last one.
    pub fn is_valid(&self) -> (valid: bool)
        requires
            self.wf(),
        ensures
            valid == (self.position() < self.entries().len()),
    {
        self.idx < self.block.offsets.len()
    }

    /// Seeks to the first key in the block.
    pub fn seek_to_first(&mut self)
        requires
            old(self).wf(),
        ensures
            final(self).wf(),
            final(self).entries() == old(self).entries(),
            final(self).position() == 0,
    {
        self.idx = 0;
    }

    /// Move to the next key in the block. Past the last entry the iterator
    /// stays where it is.
    pub fn next(&mut self)
        requires
            old(self).wf(),
        ensures
            final(self).wf(),
            final(self).entries() == old(self).entries(),
            final(self).position() == if old(self).position() < old(self).entries().len() {
                old(self).position() + 1
            } else {
                old(self).position()
            },
    {
        if self.idx < self.block.offsets.len() {
            self.idx += 1;
        }
    }

    /// Seek to the first key that is at or after `key`, by halving the range
    /// of entries in which it can lie.
    pub fn seek_to_key(&mut self, key: &[u8])
        requires
            old(self).wf(),
        ensures
            final(self).wf(),
            final(self).entries() == old(self).entries(),
            final(self).position() > 0 ==> key_lt(
                final(self).entries()[final(self).position() - 1].0,
                key@,
            ),
            final(self).position() < final(self).entries().len() ==> !key_lt(
                final(self).entries()[final(self).position()].0,
                key@,
            ),
            keys_increasing(final(self).entries()) ==> is_lower_bound(
                final(self).entries(),
                key@,
                final(self).position(),
            ),
    {
        let mut low: usize = 0;
        let mut high: usize = self.block.offsets.len();
        while low < high
            invariant
                self.block.wf(),
                low <= high <= self.block.offsets@.len(),
                low > 0 ==> key_lt(self.block.entries()[low - 1].0, key@),
                high < self.block.offsets@.len() ==> !key_lt(
                    self.block.entries()[high as int].0,
                    key@,
                ),
            decreases high - low,
        {
            let mid = low + (high - low) / 2;
            if key_less(self.block.entry_key(mid), key) {
                low = mid + 1;
            } else {
                high = mid;
            }
        }
        self.idx = low;
        proof {
            if keys_increasing(self.block.entries()) {
                lemma_lower_bound_from_neighbours(self.block.entries(), key@, low as int);
            }
        }
    }
}

} // verus!
