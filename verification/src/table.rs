//! A sorted string table: blocks, each followed by its checksum, then an
//! index of the blocks and, in the last four bytes, where that index starts.

pub mod builder;
pub mod iterator;

pub use builder::SsTableBuilder;
pub use iterator::SsTableIterator;

use crate::block::{decodable, decoded_data, decoded_offsets, entries_of, layout_wf, Block};
use crate::codec::{
    checksum, crc32, lemma_u16_round_trip, lemma_u32_round_trip, put_slice, put_u16, put_u32,
    read_u16, read_u32, u16_at, u16_be, u32_at, u32_be,
};
use crate::error::Error;
use crate::key::{copy_bytes, key_less, key_lt, Entry};
use std::sync::Arc;
use vstd::prelude::*;

verus! {

broadcast use crate::codec::group_be_len;

/// Where a block lies in the file and which keys it spans.
pub struct BlockMeta {
    /// Offset of this data block.
    pub offset: usize,
    /// The first key of the data block.
    pub first_key: Vec<u8>,
    /// The last key of the data block.
    pub last_key: Vec<u8>,
}

/// A block's index entry as plain values.
pub ghost struct BlockMetaView {
    pub offset: nat,
    pub first_key: Seq<u8>,
    pub last_key: Seq<u8>,
}

impl View for BlockMeta {
    type V = BlockMetaView;

    open spec fn view(&self) -> BlockMetaView {
        BlockMetaView {
            offset: self.offset as nat,
            first_key: self.first_key@,
            last_key: self.last_key@,
        }
    }
}

/// The index entries of a vector of them, as plain values.
pub open spec fn metas_view(metas: Seq<BlockMeta>) -> Seq<BlockMetaView> {
    Seq::new(metas.len(), |i: int| metas[i]@)
}

/// The offset and both key lengths fit the fields they are stored in.
pub open spec fn meta_encodable(m: BlockMetaView) -> bool {
    &&& m.offset <= u32::MAX
    &&& m.first_key.len() <= u16::MAX
    &&& m.last_key.len() <= u16::MAX
}

/// Every entry of the index can be stored.
pub open spec fn metas_encodable(metas: Seq<BlockMetaView>) -> bool {
    forall|i: int| 0 <= i < metas.len() ==> meta_encodable(#[trigger] metas[i])
}

/// One index entry as it is stored: the offset in four bytes, then each key
/// after its length in two.
pub open spec fn meta_bytes(m: BlockMetaView) -> Seq<u8> {
    u32_be(m.offset as u32) + u16_be(m.first_key.len() as u16) + m.first_key + u16_be(
        m.last_key.len() as u16,
    ) + m.last_key
}

/// The index as it is stored: its entries one after the other.
pub open spec fn metas_bytes(metas: Seq<BlockMetaView>) -> Seq<u8>
    decreases metas.len(),
{
    if metas.len() == 0 {
        Seq::<u8>::empty()
    } else {
        meta_bytes(metas[0]) + metas_bytes(metas.drop_first())
    }
}

/// The number of bytes that the index entry at the front of `buf` takes, if
/// `buf` is long enough to hold one.
pub open spec fn parse_meta_len(buf: Seq<u8>) -> Option<int> {
    if buf.len() < 6 {
        None
    } else {
        let first_len = u16_at(buf, 4) as int;
        if buf.len() < 8 + first_len {
            None
        } else {
            let last_len = u16_at(buf, 6 + first_len) as int;
            if buf.len() < 8 + first_len + last_len {
                None
            } else {
                Some(8 + first_len + last_len)
            }
        }
    }
}

/// The index entry at the front of `buf`.
pub open spec fn parse_meta(buf: Seq<u8>) -> BlockMetaView {
    let first_len = u16_at(buf, 4) as int;
    let last_len = u16_at(buf, 6 + first_len) as int;
    BlockMetaView {
        offset: u32_at(buf, 0) as nat,
        first_key: buf.subrange(6, 6 + first_len),
        last_key: buf.subrange(8 + first_len, 8 + first_len + last_len),
    }
}

/// The index that `buf` stores, if `buf` is index entries from its first byte
/// to its last.
pub open spec fn parse_metas(buf: Seq<u8>) -> Option<Seq<BlockMetaView>>
    decreases buf.len(),
{
    if buf.len() == 0 {
        Some(Seq::<BlockMetaView>::empty())
    } else {
        match parse_meta_len(buf) {
            None => None,
            Some(len) => match parse_metas(buf.skip(len)) {
                None => None,
                Some(rest) => Some(seq![parse_meta(buf)] + rest),
            },
        }
    }
}

/// The stored form of an index with one more entry is the stored form of
/// the index followed by that of the entry.
pub proof fn lemma_metas_bytes_push(metas: Seq<BlockMetaView>, m: BlockMetaView)
    ensures
        metas_bytes(metas.push(m)) == metas_bytes(metas) + meta_bytes(m),
    decreases metas.len(),
{
    if metas.len() == 0 {
        reveal_with_fuel(metas_bytes, 2);
        assert(metas =~= Seq::<BlockMetaView>::empty());
        assert(metas.push(m).drop_first() =~= Seq::<BlockMetaView>::empty());
        assert(metas_bytes(metas.push(m)) =~= metas_bytes(metas) + meta_bytes(m));
    } else {
        assert(metas.push(m).drop_first() =~= metas.drop_first().push(m));
        lemma_metas_bytes_push(metas.drop_first(), m);
        assert(metas_bytes(metas.push(m)) =~= metas_bytes(metas) + meta_bytes(m));
    }
}

/// A stored index entry, followed by anything, reads back as the entry.
pub proof fn lemma_parse_meta(m: BlockMetaView, rest: Seq<u8>)
    requires
        meta_encodable(m),
    ensures
        parse_meta_len(meta_bytes(m) + rest) == Some(meta_bytes(m).len() as int),
        parse_meta(meta_bytes(m) + rest) == m,
        (meta_bytes(m) + rest).skip(meta_bytes(m).len() as int) == rest,
{
    let b = meta_bytes(m);
    let buf = b + rest;
    let fl = m.first_key.len() as int;
    let ll = m.last_key.len() as int;
    lemma_u32_round_trip(m.offset as u32);
    lemma_u16_round_trip(fl as u16);
    lemma_u16_round_trip(ll as u16);
    assert(b.len() == 8 + fl + ll);
    assert(buf[0] == u32_be(m.offset as u32)[0]);
    assert(buf[1] == u32_be(m.offset as u32)[1]);
    assert(buf[2] == u32_be(m.offset as u32)[2]);
    assert(buf[3] == u32_be(m.offset as u32)[3]);
    assert(buf[4] == u16_be(fl as u16)[0]);
    assert(buf[5] == u16_be(fl as u16)[1]);
    assert(u16_at(buf, 4) == fl);
    assert(buf[6 + fl] == u16_be(ll as u16)[0]);
    assert(buf[6 + fl + 1] == u16_be(ll as u16)[1]);
    assert(u16_at(buf, 6 + fl) == ll);
    assert(buf.subrange(6, 6 + fl) =~= m.first_key);
    assert(buf.subrange(8 + fl, 8 + fl + ll) =~= m.last_key);
    assert(buf.skip(b.len() as int) =~= rest);
}

/// A stored index reads back as the index it was made from.
pub proof fn lemma_parse_metas_round_trip(metas: Seq<BlockMetaView>)
    requires
        metas_encodable(metas),
    ensures
        parse_metas(metas_bytes(metas)) == Some(metas),
    decreases metas.len(),
{
    if metas.len() == 0 {
    } else {
        let rest = metas.drop_first();
        assert(metas_encodable(rest)) by {
            assert forall|i: int| 0 <= i < rest.len() implies meta_encodable(
                #[trigger] rest[i],
            ) by {
                assert(rest[i] == metas[i + 1]);
            }
        }
        lemma_parse_metas_round_trip(rest);
        lemma_parse_meta(metas[0], metas_bytes(rest));
        assert(seq![metas[0]] + rest =~= metas);
    }
}

impl BlockMeta {
    /// Appends the stored form of the index to `buf`.
    pub fn encode_block_meta(block_meta: &[BlockMeta], buf: &mut Vec<u8>)
        requires
            metas_encodable(metas_view(block_meta@)),
        ensures
            final(buf)@ == old(buf)@ + metas_bytes(metas_view(block_meta@)),
    {
        let ghost all = metas_view(block_meta@);
        let mut i: usize = 0;
        while i < block_meta.len()
            invariant
                i <= block_meta@.len(),
                all == metas_view(block_meta@),
                metas_encodable(all),
                buf@ == old(buf)@ + metas_bytes(all.take(i as int)),
            decreases block_meta@.len() - i,
        {
            let meta = &block_meta[i];
            proof {
                assert(meta_encodable(all[i as int]));
                lemma_metas_bytes_push(all.take(i as int), all[i as int]);
                assert(all.take(i as int).push(all[i as int]) =~= all.take(i + 1));
            }
            let ghost before = buf@;
            put_u32(buf, meta.offset as u32);
            put_u16(buf, meta.first_key.len() as u16);
            put_slice(buf, meta.first_key.as_slice());
            put_u16(buf, meta.last_key.len() as u16);
            put_slice(buf, meta.last_key.as_slice());
            assert(buf@ =~= before + meta_bytes(all[i as int]));
            i += 1;
        }
        assert(all.take(i as int) =~= all);
    }

    /// Reads an index back from its stored form. Fails on bytes that are not
    /// index entries from the first to the last.
    #[verifier::rlimit(50)]
    pub fn decode_block_meta(buf: &[u8]) -> (r: Result<Vec<BlockMeta>, Error>)
        ensures
            match r {
                Ok(metas) => parse_metas(buf@) == Some(metas_view(metas@)),
                Err(e) => e == Error::Corrupted && parse_metas(buf@) is None,
            },
    {
        let mut metas: Vec<BlockMeta> = Vec::new();
        let mut pos: usize = 0;
        let len = buf.len();
        proof {
            assert(buf@.skip(0) =~= buf@);
            match parse_metas(buf@) {
                None => {},
                Some(rest) => {
                    assert(metas_view(metas@) + rest =~= rest);
                },
            }
        }
        while pos < len
            invariant
                pos <= len == buf@.len(),
                parse_metas(buf@) == match parse_metas(buf@.skip(pos as int)) {
                    None => None::<Seq<BlockMetaView>>,
                    Some(rest) => Some(metas_view(metas@) + rest),
                },
            decreases len - pos,
        {
            let ghost tail = buf@.skip(pos as int);
            if len - pos < 6 {
                return Err(Error::Corrupted);
            }
            let offset = read_u32(buf, pos) as usize;
            let first_len = read_u16(buf, pos + 4) as usize;
            assert(u16_at(tail, 4) == first_len);
            if len - pos - 6 < first_len + 2 {
                return Err(Error::Corrupted);
            }
            let last_len = read_u16(buf, pos + 6 + first_len) as usize;
            assert(u16_at(tail, 6 + first_len) == last_len);
            if len - pos - 8 - first_len < last_len {
                return Err(Error::Corrupted);
            }
            let first_key = copy_bytes(
                vstd::slice::slice_subrange(buf, pos + 6, pos + 6 + first_len),
            );
            let last_key = copy_bytes(
                vstd::slice::slice_subrange(
                    buf,
                    pos + 8 + first_len,
                    pos + 8 + first_len + last_len,
                ),
            );
            let meta = BlockMeta { offset, first_key, last_key };
            proof {
                let size = 8 + first_len + last_len;
                assert(parse_meta_len(tail) == Some(size as int));
                assert(u32_at(tail, 0) == offset);
                assert(tail.subrange(6, 6 + first_len) =~= meta.first_key@);
                assert(tail.subrange(8 + first_len, 8 + first_len + last_len) =~= meta.last_key@);
                assert(parse_meta(tail) == meta@);
                assert(tail.skip(size as int) =~= buf@.skip(pos + size));
                let grown = metas@.push(meta);
                assert(metas_view(grown) =~= metas_view(metas@).push(meta@));
                match parse_metas(buf@.skip(pos + size)) {
                    None => {},
                    Some(rest) => {
                        assert(metas_view(metas@) + (seq![meta@] + rest) =~= metas_view(grown)
                            + rest);
                    },
                }
            }
            metas.push(meta);
            pos += 8 + first_len + last_len;
        }
        proof {
            assert(buf@.skip(pos as int).len() == 0);
            assert(metas_view(metas@) + Seq::<BlockMetaView>::empty() =~= metas_view(metas@));
        }
        Ok(metas)
    }
}

/// What a table file holds: its bytes, the index of its blocks, and where the
/// blocks end and the stored index begins.
pub ghost struct Layout {
    pub file: Seq<u8>,
    pub metas: Seq<BlockMetaView>,
    pub data_end: int,
}

impl Layout {
    /// Where the region of block `i` ends: at the offset of the next block,
    /// or where the blocks end for the last one.
    pub open spec fn block_end(self, i: int) -> int {
        if i + 1 < self.metas.len() {
            self.metas[i + 1].offset as int
        } else {
            self.data_end
        }
    }

    /// The region of block `i` has room for the four bytes of a checksum.
    pub open spec fn region_ok(self, i: int) -> bool {
        self.metas[i].offset + 4 <= self.block_end(i)
    }

    /// The regions of the blocks follow each other from the first byte of the
    /// file to where the blocks end, with nothing between them.
    pub open spec fn regions_wf(self) -> bool {
        &&& 0 <= self.data_end <= self.file.len()
        &&& self.metas.len() == 0 ==> self.data_end == 0
        &&& self.metas.len() > 0 ==> self.metas[0].offset == 0
        &&& forall|i: int| 0 <= i < self.metas.len() ==> #[trigger] self.region_ok(i)
    }

    /// The encoded bytes of block `i`: its region without the checksum.
    pub open spec fn block_bytes(self, i: int) -> Seq<u8> {
        self.file.subrange(self.metas[i].offset as int, self.block_end(i) - 4)
    }

    /// The checksum stored in the last four bytes of the region of block `i`.
    pub open spec fn stored_checksum(self, i: int) -> u32 {
        u32_at(self.file, self.block_end(i) - 4)
    }

    /// The stored checksum of block `i` is the checksum of its bytes.
    pub open spec fn checksum_ok(self, i: int) -> bool {
        crc32(self.block_bytes(i)) == self.stored_checksum(i)
    }

    /// The bytes of block `i` decode to a block that can be read entry by
    /// entry.
    pub open spec fn shape_ok(self, i: int) -> bool {
        let bytes = self.block_bytes(i);
        &&& decodable(bytes)
        &&& decoded_offsets(bytes).len() >= 1
        &&& layout_wf(decoded_data(bytes), decoded_offsets(bytes))
    }

    /// Block `i` can be read: its checksum matches and its bytes have the
    /// shape of a block.
    pub open spec fn block_readable(self, i: int) -> bool {
        self.checksum_ok(i) && self.shape_ok(i)
    }

    /// The entries of block `i`.
    pub open spec fn block_entries(self, i: int) -> Seq<Entry> {
        entries_of(decoded_data(self.block_bytes(i)), decoded_offsets(self.block_bytes(i)))
    }

    /// Block `i` can be read and the index gives its first and its last key.
    pub open spec fn block_consistent(self, i: int) -> bool {
        &&& self.block_readable(i)
        &&& self.metas[i].first_key == self.block_entries(i).first().0
        &&& self.metas[i].last_key == self.block_entries(i).last().0
    }

    /// Every block can be read and the index gives the first and the last key
    /// of each.
    pub open spec fn consistent(self) -> bool {
        forall|i: int| 0 <= i < self.metas.len() ==> #[trigger] self.block_consistent(i)
    }

    /// The entries of the first `k` blocks, in order.
    pub open spec fn entries_upto(self, k: int) -> Seq<Entry>
        decreases k,
    {
        if k <= 0 {
            Seq::<Entry>::empty()
        } else {
            self.entries_upto(k - 1) + self.block_entries(k - 1)
        }
    }

    /// The entries of block `k` and of those after it, in order.
    pub open spec fn entries_from(self, k: int) -> Seq<Entry>
        decreases self.metas.len() - k,
    {
        if k < 0 || k >= self.metas.len() {
            Seq::<Entry>::empty()
        } else {
            self.block_entries(k) + self.entries_from(k + 1)
        }
    }

    /// The entries of the table, in order.
    pub open spec fn entries(self) -> Seq<Entry> {
        self.entries_upto(self.metas.len() as int)
    }

    /// Every region ends at or before the place where the blocks end.
    pub proof fn lemma_block_end_bounded(self, i: int)
        requires
            self.regions_wf(),
            0 <= i < self.metas.len(),
        ensures
            self.metas[i].offset + 4 <= self.block_end(i) <= self.data_end,
        decreases self.metas.len() - i,
    {
        assert(self.region_ok(i));
        if i + 1 < self.metas.len() {
            assert(self.region_ok(i + 1));
            self.lemma_block_end_bounded(i + 1);
        }
    }

    /// The region of block `i` ends at or before that of any later block.
    pub proof fn lemma_block_end_monotonic(self, i: int, j: int)
        requires
            self.regions_wf(),
            0 <= i <= j < self.metas.len(),
        ensures
            self.block_end(i) <= self.block_end(j),
        decreases j - i,
    {
        if i < j {
            assert(self.region_ok(i + 1));
            self.lemma_block_end_monotonic(i + 1, j);
        }
    }

    /// The first `n` blocks of both layouts have the same index entries and
    /// lie in the same bytes.
    pub open spec fn agrees_upto(self, other: Layout, n: int) -> bool {
        let end = if n > 0 {
            self.block_end(n - 1)
        } else {
            0
        };
        &&& 0 <= n <= self.metas.len()
        &&& n <= other.metas.len()
        &&& forall|i: int| 0 <= i < n ==> self.metas[i] == other.metas[i]
        &&& n > 0 ==> other.block_end(n - 1) == end
        &&& end <= self.file.len()
        &&& end <= other.file.len()
        &&& self.file.subrange(0, end) == other.file.subrange(0, end)
    }

    /// Where two layouts agree on the first `n` blocks, each of these has the
    /// same bytes, the same stored checksum and the same entries in both.
    pub proof fn lemma_agree_block(self, other: Layout, n: int, i: int)
        requires
            self.regions_wf(),
            self.agrees_upto(other, n),
            0 <= i < n,
        ensures
            self.block_end(i) == other.block_end(i),
            self.block_bytes(i) == other.block_bytes(i),
            self.stored_checksum(i) == other.stored_checksum(i),
            self.block_entries(i) == other.block_entries(i),
            self.block_readable(i) == other.block_readable(i),
            self.block_consistent(i) == other.block_consistent(i),
    {
        let end = self.block_end(n - 1);
        self.lemma_block_end_monotonic(i, n - 1);
        assert(self.region_ok(i));
        assert(self.block_end(i) == other.block_end(i));
        let a = self.file.subrange(0, end);
        let b = other.file.subrange(0, end);
        assert forall|k: int| 0 <= k < end implies self.file[k] == other.file[k] by {
            assert(self.file[k] == a[k]);
            assert(other.file[k] == b[k]);
        }
        assert(self.block_bytes(i) =~= other.block_bytes(i));
    }

    /// Where two layouts agree on the first `n` blocks, the entries of the
    /// first `k` of these are the same in both.
    pub proof fn lemma_agree_entries(self, other: Layout, n: int, k: int)
        requires
            self.regions_wf(),
            self.agrees_upto(other, n),
            0 <= k <= n,
        ensures
            self.entries_upto(k) == other.entries_upto(k),
        decreases k,
    {
        if k > 0 {
            self.lemma_agree_entries(other, n, k - 1);
            self.lemma_agree_block(other, n, k - 1);
        }
    }

    /// The first keys of the blocks increase from each block to the next.
    pub open spec fn index_sorted(self) -> bool {
        forall|a: int, b: int|
            0 <= a < b < self.metas.len() ==> key_lt(
                (#[trigger] self.metas[a]).first_key,
                (#[trigger] self.metas[b]).first_key,
            )
    }

    /// Among the first `n` blocks, the last one whose first key is at or
    /// before `key`; the first block where there is none.
    pub open spec fn last_not_after(self, key: Seq<u8>, n: int) -> int
        decreases n,
    {
        if n <= 0 {
            0
        } else if !key_lt(key, self.metas[n - 1].first_key) {
            n - 1
        } else {
            self.last_not_after(key, n - 1)
        }
    }

    /// The block in which a search for `key` starts: the last one whose first
    /// key is at or before `key`, or the first block where there is none.
    pub open spec fn block_for(self, key: Seq<u8>) -> int {
        self.last_not_after(key, self.metas.len() as int)
    }

    /// A search for `key` fails: the block in which it starts cannot be read,
    /// or every key of that block is before `key` and the block after it,
    /// to which the search moves on, cannot be read.
    pub open spec fn seek_fails(self, key: Seq<u8>) -> bool {
        let b = self.block_for(key);
        ||| !self.block_readable(b)
        ||| (key_lt(self.block_entries(b).last().0, key) && b + 1 < self.metas.len()
            && !self.block_readable(b + 1))
    }

    /// In an index whose first keys increase, every block after `idx` starts
    /// after `key` where the block after `idx` does, or where `idx` itself
    /// does.
    pub proof fn lemma_later_blocks_start_after(self, key: Seq<u8>, idx: int, j: int)
        requires
            self.index_sorted(),
            0 <= idx < j < self.metas.len(),
            key_lt(key, self.metas[idx].first_key) || key_lt(key, self.metas[idx + 1].first_key),
        ensures
            key_lt(key, self.metas[j].first_key),
    {
        if key_lt(key, self.metas[idx].first_key) {
            crate::key::lemma_key_lt_transitive(
                key,
                self.metas[idx].first_key,
                self.metas[j].first_key,
            );
        } else if j > idx + 1 {
            crate::key::lemma_key_lt_transitive(
                key,
                self.metas[idx + 1].first_key,
                self.metas[j].first_key,
            );
        }
    }

    /// In an index whose first keys increase, a block that does not start
    /// after `key` unless it is the first, and whose successor does, is the
    /// block in which the search for `key` starts.
    pub proof fn lemma_block_for(self, key: Seq<u8>, idx: int, n: int)
        requires
            self.index_sorted(),
            0 <= idx < n <= self.metas.len(),
            idx > 0 ==> !key_lt(key, self.metas[idx].first_key),
            idx + 1 < self.metas.len() && !key_lt(key, self.metas[idx].first_key) ==> key_lt(
                key,
                self.metas[idx + 1].first_key,
            ),
        ensures
            self.last_not_after(key, n) == idx,
        decreases n,
    {
        if n > idx + 1 {
            self.lemma_later_blocks_start_after(key, idx, n - 1);
            self.lemma_block_for(key, idx, n - 1);
        } else if key_lt(key, self.metas[idx].first_key) {
            assert(idx == 0);
            assert(self.last_not_after(key, 0) == 0);
        }
    }

    /// The entries before block `k` followed by those from block `k` on are
    /// the entries of the table.
    pub proof fn lemma_entries_split(self, k: int)
        requires
            0 <= k <= self.metas.len(),
        ensures
            self.entries_upto(k) + self.entries_from(k) == self.entries(),
        decreases self.metas.len() - k,
    {
        if k == self.metas.len() {
            assert(self.entries_upto(k) + self.entries_from(k) =~= self.entries());
        } else {
            self.lemma_entries_split(k + 1);
            assert(self.entries_upto(k) + self.entries_from(k) =~= self.entries_upto(k + 1)
                + self.entries_from(k + 1));
        }
    }
}

/// The layout with one byte of the file replaced.
pub open spec fn with_byte(layout: Layout, pos: int, byte: u8) -> Layout {
    Layout { file: layout.file.update(pos, byte), metas: layout.metas, data_end: layout.data_end }
}

/// A change to one byte of the checksum stored after a block is found when
/// the block is read: the stored checksum is no longer that of the block.
pub proof fn lemma_damaged_checksum_is_found(layout: Layout, i: int, pos: int, byte: u8)
    requires
        layout.regions_wf(),
        0 <= i < layout.metas.len(),
        layout.checksum_ok(i),
        layout.block_end(i) - 4 <= pos < layout.block_end(i),
        byte != layout.file[pos],
    ensures
        !with_byte(layout, pos, byte).checksum_ok(i),
        !with_byte(layout, pos, byte).block_readable(i),
{
    let damaged = with_byte(layout, pos, byte);
    let end = layout.block_end(i);
    layout.lemma_block_end_bounded(i);
    assert(damaged.block_end(i) == end);
    assert(damaged.block_bytes(i) =~= layout.block_bytes(i));
    let before = layout.file.subrange(end - 4, end);
    let after = damaged.file.subrange(end - 4, end);
    assert(before[pos - (end - 4)] != after[pos - (end - 4)]);
    crate::codec::lemma_u32_from_be_injective(before, after);
    assert(u32_at(before, 0) == layout.stored_checksum(i));
    assert(u32_at(after, 0) == damaged.stored_checksum(i));
}

/// The layout that the bytes of a table file give: the last four bytes say
/// where the index starts, the index says where each block starts. `None`
/// where the bytes are too short, the index does not read back, there is no
/// block, or the regions of the blocks do not follow each other.
pub open spec fn parse_table(file: Seq<u8>) -> Option<Layout> {
    if file.len() < 4 {
        None
    } else {
        let data_end = u32_at(file, file.len() - 4) as int;
        if data_end > file.len() - 4 {
            None
        } else {
            match parse_metas(file.subrange(data_end, file.len() - 4)) {
                None => None,
                Some(metas) => {
                    let layout = Layout { file, metas, data_end };
                    if metas.len() >= 1 && layout.regions_wf() {
                        Some(layout)
                    } else {
                        None
                    }
                },
            }
        }
    }
}

/// An SSTable, held with the bytes of its file.
pub struct SsTable {
    /// The bytes of the file.
    pub(crate) file: Vec<u8>,
    /// The index of the blocks.
    pub(crate) block_meta: Vec<BlockMeta>,
    /// Where the stored index starts in the file.
    pub(crate) block_meta_offset: usize,
    /// The identifier of the table.
    pub(crate) id: usize,
    /// The first key of the table.
    pub(crate) first_key: Vec<u8>,
    /// The last key of the table.
    pub(crate) last_key: Vec<u8>,
    /// The highest timestamp stored in the table.
    pub(crate) max_ts: u64,
}

impl SsTable {
    /// The file, the index and the end of the blocks as plain values.
    pub open(crate) spec fn layout(&self) -> Layout {
        Layout {
            file: self.file@,
            metas: metas_view(self.block_meta@),
            data_end: self.block_meta_offset as int,
        }
    }

    /// The index and the end of the blocks are what the file stores, and the
    /// bounds of the table are the first key of the first block and the last
    /// key of the last.
    pub open(crate) spec fn wf(&self) -> bool {
        &&& parse_table(self.file@) == Some(self.layout())
        &&& self.first_key@ == self.layout().metas.first().first_key
        &&& self.last_key@ == self.layout().metas.last().last_key
    }

    /// The entries of the table, in order.
    pub open spec fn entries(&self) -> Seq<Entry> {
        self.layout().entries()
    }

    /// Every block can be read and the index gives the keys it spans.
    pub open spec fn consistent(&self) -> bool {
        self.layout().consistent()
    }

    /// What opening a file under `id` gives: the layout is what the file
    /// stores.
    pub proof fn lemma_wf(&self)
        requires
            self.wf(),
        ensures
            parse_table(self.layout().file) == Some(self.layout()),
            self.layout().regions_wf(),
            1 <= self.layout().metas.len() <= usize::MAX,
    {
        assert(self.block_meta.len() == self.layout().metas.len());
    }
}


/// Whether the regions that the index gives follow each other from the start
/// of the file to `data_end`, each with room for a checksum.
fn regions_follow(metas: &Vec<BlockMeta>, data_end: usize, Ghost(file): Ghost<Seq<u8>>) -> (ok:
    bool)
    requires
        metas@.len() >= 1,
        data_end <= file.len(),
    ensures
        ok == (Layout { file, metas: metas_view(metas@), data_end: data_end as int }).regions_wf(),
{
    let ghost layout = Layout { file, metas: metas_view(metas@), data_end: data_end as int };
    let n = metas.len();
    if metas[0].offset != 0 {
        return false;
    }
    let mut i: usize = 0;
    while i < n
        invariant
            n == metas@.len(),
            i <= n,
            layout == (Layout { file, metas: metas_view(metas@), data_end: data_end as int }),
            forall|j: int| 0 <= j < i ==> #[trigger] layout.region_ok(j),
        decreases n - i,
    {
        let start = metas[i].offset;
        let end = if i + 1 < n {
            metas[i + 1].offset
        } else {
            data_end
        };
        if end < 4 || start > end - 4 {
            assert(!layout.region_ok(i as int));
            return false;
        }
        assert(layout.region_ok(i as int));
        i += 1;
    }
    true
}

impl SsTable {
    /// Opens a table from the bytes of its file. Fails where the bytes do
    /// not give a layout; the blocks themselves are checked when read.
    pub fn open(id: usize, file: Vec<u8>) -> (r: Result<Self, Error>)
        ensures
            match r {
                Ok(table) => {
                    &&& table.wf()
                    &&& table.layout().file == file@
                    &&& table.sst_id_spec() == id
                    &&& table.max_ts_spec() == 0
                },
                Err(e) => e == Error::Corrupted && parse_table(file@) is None,
            },
    {
        let len = file.len();
        if len < 4 {
            return Err(Error::Corrupted);
        }
        let block_meta_offset = read_u32(file.as_slice(), len - 4) as usize;
        if block_meta_offset > len - 4 {
            return Err(Error::Corrupted);
        }
        let section = vstd::slice::slice_subrange(file.as_slice(), block_meta_offset, len - 4);
        let block_meta = match BlockMeta::decode_block_meta(section) {
            Ok(metas) => metas,
            Err(e) => {
                return Err(e);
            },
        };
        if block_meta.len() == 0 || !regions_follow(&block_meta, block_meta_offset, Ghost(file@)) {
            return Err(Error::Corrupted);
        }
        let first_key = copy_bytes(block_meta[0].first_key.as_slice());
        let last_key = copy_bytes(block_meta[block_meta.len() - 1].last_key.as_slice());
        Ok(Self { file, block_meta, block_meta_offset, id, first_key, last_key, max_ts: 0 })
    }

    /// Reads block `block_idx` from the file and checks it: first its
    /// checksum, then its shape.
    pub fn read_block(&self, block_idx: usize) -> (r: Result<Arc<Block>, Error>)
        requires
            self.wf(),
            block_idx < self.layout().metas.len(),
        ensures
            match r {
                Ok(block) => {
                    &&& self.layout().block_readable(block_idx as int)
                    &&& block.wf()
                    &&& block.entries() == self.layout().block_entries(block_idx as int)
                    &&& block.data@ == decoded_data(self.layout().block_bytes(block_idx as int))
                    &&& block.offsets@ == decoded_offsets(
                        self.layout().block_bytes(block_idx as int),
                    )
                },
                Err(e) => {
                    &&& !self.layout().block_readable(block_idx as int)
                    &&& e == if self.layout().checksum_ok(block_idx as int) {
                        Error::Corrupted
                    } else {
                        Error::ChecksumMismatch
                    }
                },
            },
    {
        proof {
            self.layout().lemma_block_end_bounded(block_idx as int);
        }
        let n = self.block_meta.len();
        let offset = self.block_meta[block_idx].offset;
        let offset_end = if block_idx + 1 < n {
            self.block_meta[block_idx + 1].offset
        } else {
            self.block_meta_offset
        };
        let block_data = vstd::slice::slice_subrange(self.file.as_slice(), offset, offset_end - 4);
        let stored = read_u32(self.file.as_slice(), offset_end - 4);
        if checksum(block_data) != stored {
            return Err(Error::ChecksumMismatch);
        }
        match Block::decode_checked(block_data) {
            Some(block) => Ok(Arc::new(block)),
            None => Err(Error::Corrupted),
        }
    }

    /// Finds the block that may hold `key`: the last one whose first key is
    /// at or before `key`, or the first block where there is none. The index
    /// is searched by halving.
    pub fn find_block_idx(&self, key: &[u8]) -> (idx: usize)
        requires
            self.wf(),
        ensures
            idx < self.layout().metas.len(),
            idx > 0 ==> !key_lt(key@, self.layout().metas[idx as int].first_key),
            idx + 1 < self.layout().metas.len() && !key_lt(
                key@,
                self.layout().metas[idx as int].first_key,
            ) ==> key_lt(key@, self.layout().metas[idx + 1].first_key),
            self.layout().index_sorted() ==> idx == self.layout().block_for(key@),
    {
        let idx = self.search_index(key);
        proof {
            if self.layout().index_sorted() {
                self.layout().lemma_block_for(
                    key@,
                    idx as int,
                    self.layout().metas.len() as int,
                );
            }
        }
        idx
    }

    /// The search of `find_block_idx`.
    fn search_index(&self, key: &[u8]) -> (idx: usize)
        requires
            self.wf(),
        ensures
            idx < self.layout().metas.len(),
            idx > 0 ==> !key_lt(key@, self.layout().metas[idx as int].first_key),
            idx + 1 < self.layout().metas.len() && !key_lt(
                key@,
                self.layout().metas[idx as int].first_key,
            ) ==> key_lt(key@, self.layout().metas[idx + 1].first_key),
    {
        let mut low: usize = 0;
        let mut high: usize = self.block_meta.len();
        while low < high
            invariant
                low <= high <= self.block_meta@.len(),
                low > 0 ==> !key_lt(key@, self.block_meta@[low - 1].first_key@),
                high < self.block_meta@.len() ==> key_lt(
                    key@,
                    self.block_meta@[high as int].first_key@,
                ),
            decreases high - low,
        {
            let mid = low + (high - low) / 2;
            if key_less(key, self.block_meta[mid].first_key.as_slice()) {
                high = mid;
            } else {
                low = mid + 1;
            }
        }
        if low > 0 {
            low - 1
        } else {
            0
        }
    }

    /// Get number of data blocks.
    pub fn num_of_blocks(&self) -> (n: usize)
        ensures
            n == self.layout().metas.len(),
    {
        self.block_meta.len()
    }

    /// The first key of the table.
    pub fn first_key(&self) -> (key: &[u8])
        ensures
            key@ == self.first_key_spec(),
    {
        self.first_key.as_slice()
    }

    /// The last key of the table.
    pub fn last_key(&self) -> (key: &[u8])
        ensures
            key@ == self.last_key_spec(),
    {
        self.last_key.as_slice()
    }

    /// The size of the file in bytes.
    pub fn table_size(&self) -> (n: usize)
        ensures
            n == self.layout().file.len(),
    {
        self.file.len()
    }

    /// The bytes of the file.
    pub fn file_bytes(&self) -> (bytes: &[u8])
        ensures
            bytes@ == self.layout().file,
    {
        self.file.as_slice()
    }

    /// The identifier of the table.
    pub fn sst_id(&self) -> (id: usize)
        ensures
            id == self.sst_id_spec(),
    {
        self.id
    }

    /// The highest timestamp stored in the table, zero where none is kept.
    pub fn max_ts(&self) -> (ts: u64)
        ensures
            ts == self.max_ts_spec(),
    {
        self.max_ts
    }

    /// The identifier of the table.
    pub closed spec fn sst_id_spec(&self) -> usize {
        self.id
    }

    /// The highest timestamp stored in the table.
    pub closed spec fn max_ts_spec(&self) -> u64 {
        self.max_ts
    }

    /// The first key of the table.
    pub closed spec fn first_key_spec(&self) -> Seq<u8> {
        self.first_key@
    }

    /// The last key of the table.
    pub closed spec fn last_key_spec(&self) -> Seq<u8> {
        self.last_key@
    }

    /// The bounds of a well-formed table are the first key of its first
    /// block and the last key of its last, as the index gives them.
    pub proof fn lemma_bounds(&self)
        requires
            self.wf(),
        ensures
            self.first_key_spec() == self.layout().metas.first().first_key,
            self.last_key_spec() == self.layout().metas.last().last_key,
    {
    }
}

} // verus!
