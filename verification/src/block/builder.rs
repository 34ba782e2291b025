//! Packs key-value entries into a block, up to a budget of bytes.

use crate::block::{entries_of, entry_end, entry_fits, entry_ok, key_at, layout_wf, value_at, Block};
use crate::codec::{lemma_u16_round_trip, put_slice, put_u16, u16_be};
use crate::key::{copy_bytes, Entry};
use vstd::prelude::*;

verus! {

broadcast use crate::codec::group_be_len;

/// The bytes that one entry takes in a block's data: two lengths of two bytes
/// each, the key and the value.
pub open spec fn entry_size(e: Entry) -> nat {
    4 + e.0.len() + e.1.len()
}

/// The bytes that the entries take in a block's data.
pub open spec fn entries_size(s: Seq<Entry>) -> nat
    decreases s.len(),
{
    if s.len() == 0 {
        0
    } else {
        entries_size(s.drop_last()) + entry_size(s.last())
    }
}

/// One entry as it is stored: the key's length, the key, the value's length
/// and the value.
pub open spec fn entry_bytes(key: Seq<u8>, value: Seq<u8>) -> Seq<u8> {
    u16_be(key.len() as u16) + key + u16_be(value.len() as u16) + value
}

/// Appending one stored entry to well-formed data, and its offset to the
/// offsets, keeps the layout well formed and adds the entry after the others.
pub proof fn lemma_append_entry(data: Seq<u8>, offsets: Seq<u16>, key: Seq<u8>, value: Seq<u8>)
    requires
        layout_wf(data, offsets),
        data.len() <= u16::MAX,
        key.len() <= u16::MAX,
        value.len() <= u16::MAX,
    ensures
        layout_wf(data + entry_bytes(key, value), offsets.push(data.len() as u16)),
        entries_of(data + entry_bytes(key, value), offsets.push(data.len() as u16)) == entries_of(
            data,
            offsets,
        ).push((key, value)),
{
    let data2 = data + entry_bytes(key, value);
    let offsets2 = offsets.push(data.len() as u16);
    let n = offsets.len() as int;
    let start = data.len() as int;
    lemma_u16_round_trip(key.len() as u16);
    lemma_u16_round_trip(value.len() as u16);
    assert forall|i: int| 0 <= i < n implies {
        &&& #[trigger] entry_ok(data2, offsets2, i)
        &&& key_at(data2, offsets2[i] as int) == key_at(data, offsets[i] as int)
        &&& value_at(data2, offsets2[i] as int) == value_at(data, offsets[i] as int)
    } by {
        assert(entry_ok(data, offsets, i));
        let s = offsets[i] as int;
        assert(entry_end(data2, offsets2, i) == entry_end(data, offsets, i));
        assert(data2[s] == data[s]);
        assert(data2[s + 1] == data[s + 1]);
        let kl = crate::block::key_len_at(data, s);
        assert(data2[s + 2 + kl] == data[s + 2 + kl]);
        assert(data2[s + 2 + kl + 1] == data[s + 2 + kl + 1]);
        assert(key_at(data2, s) =~= key_at(data, s));
        assert(value_at(data2, s) =~= value_at(data, s));
    }
    assert(entry_bytes(key, value).len() == 4 + key.len() + value.len());
    assert(data2[start] == u16_be(key.len() as u16)[0]);
    assert(data2[start + 1] == u16_be(key.len() as u16)[1]);
    assert(crate::block::key_len_at(data2, start) == key.len());
    assert(data2[start + 2 + key.len()] == u16_be(value.len() as u16)[0]);
    assert(data2[start + 2 + key.len() + 1] == u16_be(value.len() as u16)[1]);
    assert(crate::block::value_len_at(data2, start) == value.len());
    assert(entry_fits(data2, start, data2.len() as int));
    assert(entry_ok(data2, offsets2, n));
    assert(key_at(data2, start) =~= key);
    assert(value_at(data2, start) =~= value);
    if n > 0 {
        assert(entry_ok(data, offsets, 0));
    }
    let grown = entries_of(data, offsets).push((key, value));
    assert forall|i: int| 0 <= i <= n implies #[trigger] entries_of(data2, offsets2)[i]
        == grown[i] by {
        if i < n {
            assert(entry_ok(data2, offsets2, i));
        }
    }
    assert(entries_of(data2, offsets2) =~= grown);
}

/// Builds a block.
pub struct BlockBuilder {
    /// Offsets of each key-value entry.
    offsets: Vec<u16>,
    /// All serialized key-value pairs in the block.
    data: Vec<u8>,
    /// The expected block size.
    block_size: usize,
    /// The first key in the block.
    first_key: Vec<u8>,
}

impl BlockBuilder {
    /// What the builder holds is a well-formed layout within its limits.
    pub closed spec fn wf(&self) -> bool {
        &&& layout_wf(self.data@, self.offsets@)
        &&& self.block_size <= u16::MAX
        &&& self.data@.len() == entries_size(entries_of(self.data@, self.offsets@))
        &&& 4 * self.offsets@.len() <= self.data@.len()
        &&& self.offsets@.len() >= 2 ==> self.data@.len() + 2 <= self.block_size
        &&& self.offsets@.len() == 1 ==> self.data@.len() <= 4 + 2 * u16::MAX
        &&& self.first_key@ == if self.offsets@.len() > 0 {
            key_at(self.data@, 0)
        } else {
            Seq::<u8>::empty()
        }
    }

    /// The entries added so far, in the order in which they were added.
    pub closed spec fn entries(&self) -> Seq<Entry> {
        entries_of(self.data@, self.offsets@)
    }

    /// The budget of bytes that the builder was made with.
    pub closed spec fn block_size(&self) -> nat {
        self.block_size as nat
    }

    /// The first key added, empty while there is none.
    pub closed spec fn first_key(&self) -> Seq<u8> {
        self.first_key@
    }

    /// Creates a new block builder. The budget has to fit the sixteen bits in
    /// which a block stores the offset of an entry.
    pub fn new(block_size: usize) -> (builder: Self)
        requires
            block_size <= u16::MAX,
        ensures
            builder.wf(),
            builder.entries() == Seq::<Entry>::empty(),
            builder.block_size() == block_size,
            builder.first_key() == Seq::<u8>::empty(),
    {
        let builder = Self {
            offsets: Vec::new(),
            data: Vec::new(),
            block_size,
            first_key: Vec::new(),
        };
        assert(builder.entries() =~= Seq::<Entry>::empty());
        builder
    }

    /// Adds a key-value pair to the block. Returns false, and changes nothing,
    /// when the block holds an entry already and the new one would take it
    /// over the budget: the entries stored so far, the new one and six bytes.
    #[must_use]
    pub fn add(&mut self, key: &[u8], value: &[u8]) -> (added: bool)
        requires
            old(self).wf(),
            key@.len() <= u16::MAX,
            value@.len() <= u16::MAX,
        ensures
            final(self).wf(),
            final(self).block_size() == old(self).block_size(),
            added == (old(self).entries().len() == 0 || entries_size(old(self).entries())
                + key@.len() + value@.len() + 6 <= old(self).block_size()),
            added ==> final(self).entries() == old(self).entries().push((key@, value@)),
            !added ==> *final(self) == *old(self),
            final(self).entries().len() >= 2 ==> entries_size(final(self).entries()) + 2
                <= final(self).block_size(),
            final(self).entries().len() > 0
                ==> final(self).first_key() == final(self).entries()[0].0,
    {
        let added_size = key.len() + value.len() + 6;
        if self.data.len() + added_size > self.block_size && !self.is_empty() {
            return false;
        }
        proof {
            lemma_append_entry(self.data@, self.offsets@, key@, value@);
            let grown = self.entries().push((key@, value@));
            assert(grown.drop_last() =~= self.entries());
        }
        if self.is_empty() {
            self.first_key = copy_bytes(key);
        }
        // put offset
        self.offsets.push(self.data.len() as u16);
        // put key
        put_u16(&mut self.data, key.len() as u16);
        put_slice(&mut self.data, key);
        // put value
        put_u16(&mut self.data, value.len() as u16);
        put_slice(&mut self.data, value);
        proof {
            assert(self.data@ =~= old(self).data@ + entry_bytes(key@, value@));
            let grown = old(self).entries().push((key@, value@));
            assert(self.entries() == grown);
            assert(self.entries()[0] == grown[0]);
            assert(entries_size(grown) == entries_size(old(self).entries()) + entry_size(
                (key@, value@),
            ));
        }
        true
    }

    /// Check if there is no key-value pair in the block.
    pub fn is_empty(&self) -> (empty: bool)
        requires
            self.wf(),
        ensures
            empty == (self.entries().len() == 0),
    {
        self.data.len() == 0
    }

    /// Finalize the block. An empty block is never built.
    pub fn build(self) -> (block: Block)
        requires
            self.wf(),
            self.entries().len() > 0,
        ensures
            block.wf(),
            block.entries() == self.entries(),
            block.data@.len() == entries_size(self.entries()),
    {
        Block { offsets: self.offsets, data: self.data }
    }
}

} // verus!
