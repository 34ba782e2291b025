//! What every sorted source of entries offers: the entry it stands on, and a
//! step to the next.

pub mod heap;
pub mod merge_iterator;
pub mod merge_model;

use crate::error::Error;
use crate::key::{keys_increasing, Entry};
use vstd::prelude::*;

verus! {

/// A cursor over key-value entries.
pub trait StorageIterator: Sized {
    /// The iterator's parts fit together.
    spec fn inv(&self) -> bool;

    /// The entry the iterator stands on, then those it has yet to reach.
    /// Empty once the iterator is exhausted.
    spec fn remaining(&self) -> Seq<Entry>;

    /// Get the current value.
    fn value(&self) -> (value: &[u8])
        requires
            self.inv(),
            self.remaining().len() > 0,
        ensures
            value@ == self.remaining()[0].1,
    ;

    /// Get the current key.
    fn key(&self) -> (key: &[u8])
        requires
            self.inv(),
            self.remaining().len() > 0,
        ensures
            key@ == self.remaining()[0].0,
    ;

    /// Check if the current iterator is valid.
    fn is_valid(&self) -> (valid: bool)
        requires
            self.inv(),
        ensures
            valid == (self.remaining().len() > 0),
    ;

    /// Move to the next position. Where the step succeeds, the entry that
    /// the iterator stood on is gone and the others are left as they were.
    /// Where it fails, what is left is still in order if it was before.
    fn next(&mut self) -> (r: Result<(), Error>)
        requires
            old(self).inv(),
            old(self).remaining().len() > 0,
        ensures
            final(self).inv(),
            r is Ok ==> final(self).remaining() == old(self).remaining().drop_first(),
            keys_increasing(old(self).remaining()) ==> keys_increasing(final(self).remaining()),
    ;

    /// Number of underlying active iterators for this iterator.
    fn num_active_iterators(&self) -> (n: usize)
        requires
            self.inv(),
    ;
}

} // verus!
