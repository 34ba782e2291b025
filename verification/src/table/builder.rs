//! Builds a table from key-value pairs added in order: fills one block after
//! the other and lays them out with their checksums and index.

use crate::block::builder::{entries_size, BlockBuilder};
use crate::block::{encoded, entries_of, lemma_encode_decode};
use crate::codec::{bytes_as_slice, checksum, crc32, lemma_u32_round_trip, put_u32, u32_be};
use crate::error::Error;
use crate::key::{copy_bytes, Entry};
use crate::table::{
    lemma_parse_metas_round_trip, meta_encodable, metas_bytes, metas_view,
    parse_table, BlockMeta, BlockMetaView, Layout, SsTable,
};
use vstd::prelude::*;

verus! {

broadcast use crate::codec::group_be_len;

/// The bytes that a block of these entries takes once encoded: the entries,
/// two bytes for the offset of each, and two for their count.
pub open spec fn encoded_block_len(entries: Seq<Entry>) -> nat {
    entries_size(entries) + 2 * entries.len() + 2
}

/// The layout after one more block: its encoded bytes and their checksum
/// follow the file, and its index entry follows the index.
pub open spec fn with_block(layout: Layout, block: Seq<u8>, meta: BlockMetaView) -> Layout {
    Layout {
        file: layout.file + block + u32_be(crc32(block)),
        metas: layout.metas.push(meta),
        data_end: (layout.file.len() + block.len() + 4) as int,
    }
}

/// Adding the encoded form of a well-formed block to a layout that ends with
/// its file keeps the blocks before it as they are and makes the new block
/// the last one, readable and with the entries it was built from.
#[verifier::rlimit(50)]
pub proof fn lemma_with_block(layout: Layout, data: Seq<u8>, offsets: Seq<u16>, meta: BlockMetaView)
    requires
        layout.regions_wf(),
        layout.data_end == layout.file.len(),
        crate::block::layout_wf(data, offsets),
        1 <= offsets.len() <= u16::MAX,
        meta.offset == layout.file.len(),
    ensures
        with_block(layout, encoded(data, offsets), meta).regions_wf(),
        layout.agrees_upto(
            with_block(layout, encoded(data, offsets), meta),
            layout.metas.len() as int,
        ),
        with_block(layout, encoded(data, offsets), meta).block_readable(layout.metas.len() as int),
        with_block(layout, encoded(data, offsets), meta).block_entries(layout.metas.len() as int)
            == entries_of(data, offsets),
        with_block(layout, encoded(data, offsets), meta).entries() == layout.entries()
            + entries_of(data, offsets),
{
    let block = encoded(data, offsets);
    let grown = with_block(layout, block, meta);
    let n = layout.metas.len() as int;
    lemma_u32_round_trip(crc32(block));
    lemma_encode_decode(data, offsets);
    assert forall|i: int| 0 <= i < n + 1 implies #[trigger] grown.region_ok(i) by {
        if i < n {
            assert(layout.region_ok(i));
        }
    }
    if n > 0 {
        assert(layout.region_ok(0));
    }
    assert(grown.regions_wf());
    assert(layout.file.subrange(0, layout.file.len() as int) =~= grown.file.subrange(
        0,
        layout.file.len() as int,
    ));
    if n > 0 {
        layout.lemma_block_end_bounded(n - 1);
    }
    assert(layout.agrees_upto(grown, n));
    assert(grown.block_bytes(n) =~= block);
    let sum = u32_be(crc32(block));
    assert(grown.file[grown.block_end(n) - 4] == sum[0]);
    assert(grown.file[grown.block_end(n) - 3] == sum[1]);
    assert(grown.file[grown.block_end(n) - 2] == sum[2]);
    assert(grown.file[grown.block_end(n) - 1] == sum[3]);
    assert(grown.stored_checksum(n) == crc32(block));
    layout.lemma_agree_entries(grown, n, n);
}

/// The layout of the finished file: the index and the offset at which it
/// starts follow the blocks.
pub open spec fn sealed(blocks: Layout) -> Layout {
    Layout {
        file: blocks.file + metas_bytes(blocks.metas) + u32_be(blocks.data_end as u32),
        metas: blocks.metas,
        data_end: blocks.data_end,
    }
}

/// The file that ends with the index and its offset reads back as the blocks
/// and the index it was made from, and the blocks lie in it where they lay.
#[verifier::rlimit(50)]
pub proof fn lemma_sealed(blocks: Layout)
    requires
        blocks.regions_wf(),
        blocks.data_end == blocks.file.len(),
        blocks.data_end <= u32::MAX,
        blocks.metas.len() >= 1,
        crate::table::metas_encodable(blocks.metas),
    ensures
        parse_table(sealed(blocks).file) == Some(sealed(blocks)),
        sealed(blocks).regions_wf(),
        blocks.agrees_upto(sealed(blocks), blocks.metas.len() as int),
        sealed(blocks).file.subrange(0, blocks.data_end) == blocks.file,
{
    let layout = sealed(blocks);
    let n = blocks.metas.len() as int;
    let end = blocks.data_end;
    let index = metas_bytes(blocks.metas);
    let tail = u32_be(end as u32);
    let len = layout.file.len() as int;
    assert(tail.len() == 4);
    assert(len == end + index.len() + 4);
    assert(layout.file.subrange(0, end) =~= blocks.file);
    assert(crate::codec::u32_at(layout.file, len - 4) == end) by {
        lemma_u32_round_trip(end as u32);
        assert(layout.file[len - 4] == tail[0]);
        assert(layout.file[len - 3] == tail[1]);
        assert(layout.file[len - 2] == tail[2]);
        assert(layout.file[len - 1] == tail[3]);
    }
    assert(layout.file.subrange(end, len - 4) =~= index);
    lemma_parse_metas_round_trip(blocks.metas);
    assert forall|i: int| 0 <= i < n implies #[trigger] layout.region_ok(i) by {
        assert(blocks.region_ok(i));
    }
    assert(blocks.region_ok(0));
    assert(layout.regions_wf());
    blocks.lemma_block_end_bounded(n - 1);
    assert(blocks.file.subrange(0, end) =~= blocks.file);
    assert(blocks.block_end(n - 1) == end);
    assert(layout.block_end(n - 1) == end);
}

/// Builds an SSTable from key-value pairs.
pub struct SsTableBuilder {
    builder: BlockBuilder,
    first_key: Vec<u8>,
    last_key: Vec<u8>,
    data: Vec<u8>,
    pub(crate) meta: Vec<BlockMeta>,
    block_size: usize,
}

impl SsTableBuilder {
    /// The blocks finished so far: their bytes with the checksums, and
    /// their index.
    pub closed spec fn flushed(&self) -> Layout {
        Layout {
            file: self.data@,
            metas: metas_view(self.meta@),
            data_end: self.data@.len() as int,
        }
    }

    /// The entries of the block that is being filled.
    pub closed spec fn pending(&self) -> Seq<Entry> {
        self.builder.entries()
    }

    /// The budget of bytes for one block.
    pub closed spec fn block_size(&self) -> nat {
        self.block_size as nat
    }

    /// The entries added so far, in the order in which they were added.
    pub open spec fn entries(&self) -> Seq<Entry> {
        self.flushed().entries() + self.pending()
    }

    /// The finished blocks are laid out one after the other and can all be
    /// read back, and the keys kept aside are those of the block being
    /// filled.
    pub closed spec fn wf_parts(&self) -> bool {
        &&& self.builder.wf()
        &&& self.builder.block_size() == self.block_size
        &&& self.block_size <= u16::MAX
        &&& self.flushed().regions_wf()
        &&& self.flushed().consistent()
        &&& forall|i: int|
            0 <= i < self.meta@.len() ==> {
                &&& (#[trigger] self.meta@[i]).first_key@.len() <= u16::MAX
                &&& self.meta@[i].last_key@.len() <= u16::MAX
            }
        &&& self.pending().len() > 0 ==> {
            &&& self.first_key@ == self.pending().first().0
            &&& self.last_key@ == self.pending().last().0
            &&& self.first_key@.len() <= u16::MAX
            &&& self.last_key@.len() <= u16::MAX
        }
    }

    /// The builder's parts fit together, and a block is being filled once
    /// one was finished.
    pub closed spec fn wf(&self) -> bool {
        &&& self.wf_parts()
        &&& self.meta@.len() > 0 ==> self.pending().len() > 0
    }

    /// Create a builder based on target block size. The size has to fit the
    /// sixteen bits in which a block stores the offset of an entry.
    pub fn new(block_size: usize) -> (builder: Self)
        requires
            block_size <= u16::MAX,
        ensures
            builder.wf(),
            builder.entries() == Seq::<Entry>::empty(),
            builder.block_size() == block_size,
            builder.pending() == Seq::<Entry>::empty(),
            builder.flushed().file == Seq::<u8>::empty(),
            builder.flushed().metas == Seq::<BlockMetaView>::empty(),
    {
        let builder = Self {
            builder: BlockBuilder::new(block_size),
            first_key: Vec::new(),
            last_key: Vec::new(),
            data: Vec::new(),
            meta: Vec::new(),
            block_size,
        };
        assert(builder.flushed().metas =~= Seq::<BlockMetaView>::empty());
        assert(builder.entries() =~= Seq::<Entry>::empty());
        builder
    }

    /// Adds a key-value pair to the table. The pair joins the block that is
    /// being filled; where that block refuses it, the block is finished and
    /// the pair starts the next one.
    pub fn add(&mut self, key: &[u8], value: &[u8])
        requires
            old(self).wf(),
            key@.len() <= u16::MAX,
            value@.len() <= u16::MAX,
        ensures
            final(self).wf(),
            final(self).block_size() == old(self).block_size(),
            final(self).entries() == old(self).entries().push((key@, value@)),
            old(self).pending().len() == 0 || entries_size(old(self).pending()) + key@.len()
                + value@.len() + 6 <= old(self).block_size() ==> {
                &&& final(self).flushed() == old(self).flushed()
                &&& final(self).pending() == old(self).pending().push((key@, value@))
            },
            !(old(self).pending().len() == 0 || entries_size(old(self).pending()) + key@.len()
                + value@.len() + 6 <= old(self).block_size()) ==> {
                &&& final(self).flushed().metas.len() == old(self).flushed().metas.len() + 1
                &&& final(self).flushed().metas.drop_last() == old(self).flushed().metas
                &&& final(self).flushed().metas.last() == (BlockMetaView {
                    offset: old(self).flushed().file.len(),
                    first_key: old(self).pending().first().0,
                    last_key: old(self).pending().last().0,
                })
                &&& final(self).flushed().file.len() == old(self).flushed().file.len()
                    + encoded_block_len(old(self).pending()) + 4
                &&& final(self).flushed().file.subrange(
                    0,
                    old(self).flushed().file.len() as int,
                ) == old(self).flushed().file
                &&& final(self).flushed().entries() == old(self).flushed().entries() + old(
                    self,
                ).pending()
                &&& final(self).pending() == seq![(key@, value@)]
            },
    {
        if self.builder.is_empty() {
            self.first_key = copy_bytes(key);
        }
        if self.builder.add(key, value) {
            self.last_key = copy_bytes(key);
            proof {
                assert(self.entries() =~= old(self).entries().push((key@, value@)));
                assert(self.meta@ == old(self).meta@);
            }
            return ;
        }
        self.finish_block();
        let added = self.builder.add(key, value);
        assert(added);
        self.first_key = copy_bytes(key);
        self.last_key = copy_bytes(key);
        proof {
            assert(self.pending() =~= seq![(key@, value@)]);
            assert(self.entries() =~= old(self).entries().push((key@, value@)));
        }
    }

    /// Finishes the block that is being filled: records where it starts and
    /// its first and last key, encodes it, and appends the encoded bytes and
    /// their checksum to the output. A fresh block is filled from then on.
    #[verifier::rlimit(50)]
    fn finish_block(&mut self)
        requires
            old(self).wf_parts(),
            old(self).pending().len() > 0,
        ensures
            final(self).wf_parts(),
            final(self).block_size() == old(self).block_size(),
            final(self).pending() == Seq::<Entry>::empty(),
            final(self).flushed().metas.len() == old(self).flushed().metas.len() + 1,
            final(self).flushed().metas.last() == (BlockMetaView {
                offset: old(self).flushed().file.len(),
                first_key: old(self).pending().first().0,
                last_key: old(self).pending().last().0,
            }),
            final(self).flushed().metas.drop_last() == old(self).flushed().metas,
            final(self).flushed().file.len() == old(self).flushed().file.len() + encoded_block_len(
                old(self).pending(),
            ) + 4,
            final(self).flushed().file.subrange(0, old(self).flushed().file.len() as int) == old(
                self,
            ).flushed().file,
            final(self).flushed().entries() == old(self).flushed().entries() + old(self).pending(),
            final(self).flushed().block_entries(old(self).flushed().metas.len() as int) == old(
                self,
            ).pending(),
    {
        let mut builder = BlockBuilder::new(self.block_size);
        core::mem::swap(&mut self.builder, &mut builder);
        let mut first_key: Vec<u8> = Vec::new();
        core::mem::swap(&mut self.first_key, &mut first_key);
        let mut last_key: Vec<u8> = Vec::new();
        core::mem::swap(&mut self.last_key, &mut last_key);
        let meta = BlockMeta { offset: self.data.len(), first_key, last_key };
        let ghost meta_view = meta@;
        self.meta.push(meta);
        let block = builder.build();
        let encoded_data = block.encode();
        let check_sum = checksum(bytes_as_slice(&encoded_data));
        self.data.extend_from_slice(bytes_as_slice(&encoded_data));
        put_u32(&mut self.data, check_sum);
        proof {
            let before = old(self).flushed();
            let bytes = encoded(block.data@, block.offsets@);
            lemma_with_block(before, block.data@, block.offsets@, meta_view);
            let grown = with_block(before, bytes, meta_view);
            assert(self.data@ =~= grown.file);
            assert(metas_view(self.meta@) =~= grown.metas);
            assert(self.flushed() == grown);
            let n = before.metas.len() as int;
            assert forall|i: int| 0 <= i < n + 1 implies #[trigger] grown.block_consistent(
                i,
            ) by {
                if i < n {
                    assert(before.block_consistent(i));
                    before.lemma_agree_block(grown, n, i);
                }
            }
            assert(grown.metas.drop_last() =~= before.metas);
            assert(grown.file.subrange(0, before.file.len() as int) =~= before.file);
        }
    }

    /// Get the estimated size of the SSTable: the bytes of the finished
    /// blocks with their checksums. The block being filled and the index are
    /// not counted.
    pub fn estimated_size(&self) -> (size: usize)
        ensures
            size == self.flushed().file.len(),
    {
        self.data.len()
    }

    /// Builds the SSTable: finishes the block that is being filled, then
    /// appends the index and, in four bytes, the offset at which the index
    /// starts. Fails where that offset does not fit its four bytes.
    #[verifier::rlimit(50)]
    pub fn build(self, id: usize) -> (r: Result<SsTable, Error>)
        requires
            self.wf(),
            self.entries().len() > 0,
        ensures
            r is Err <==> self.flushed().file.len() + encoded_block_len(self.pending()) + 4
                > u32::MAX,
            match r {
                Ok(table) => {
                    &&& table.wf()
                    &&& table.consistent()
                    &&& table.entries() == self.entries()
                    &&& table.sst_id_spec() == id
                    &&& table.max_ts_spec() == 0
                    &&& table.layout().metas.len() == self.flushed().metas.len() + 1
                    &&& table.layout().metas.drop_last() == self.flushed().metas
                    &&& table.layout().metas.last() == (BlockMetaView {
                        offset: self.flushed().file.len(),
                        first_key: self.pending().first().0,
                        last_key: self.pending().last().0,
                    })
                    &&& table.layout().block_entries(self.flushed().metas.len() as int)
                        == self.pending()
                    &&& table.layout().data_end == self.flushed().file.len() + encoded_block_len(
                        self.pending(),
                    ) + 4
                    &&& table.layout().file == table.layout().file.subrange(
                        0,
                        table.layout().data_end,
                    ) + metas_bytes(table.layout().metas) + u32_be(table.layout().data_end as u32)
                    &&& table.layout().file.subrange(0, self.flushed().file.len() as int)
                        == self.flushed().file
                },
                Err(e) => e == Error::TableTooLarge,
            },
    {
        let mut this = self;
        proof {
            if this.pending().len() == 0 {
                assert(this.flushed().entries() =~= Seq::<Entry>::empty());
            }
        }
        this.finish_block();
        let ghost blocks = this.flushed();
        let SsTableBuilder { data, meta, .. } = this;
        let meta_offset = data.len();
        if meta_offset > u32::MAX as usize {
            return Err(Error::TableTooLarge);
        }
        let mut buf = data;
        proof {
            assert forall|i: int| 0 <= i < blocks.metas.len() implies meta_encodable(
                #[trigger] blocks.metas[i],
            ) by {
                blocks.lemma_block_end_bounded(i);
                assert(meta@[i].first_key@.len() <= u16::MAX);
            }
        }
        BlockMeta::encode_block_meta(meta.as_slice(), &mut buf);
        put_u32(&mut buf, meta_offset as u32);
        let first_key = copy_bytes(meta[0].first_key.as_slice());
        let last_key = copy_bytes(meta[meta.len() - 1].last_key.as_slice());
        let table = SsTable {
            file: buf,
            block_meta: meta,
            block_meta_offset: meta_offset,
            id,
            first_key,
            last_key,
            max_ts: 0,
        };
        proof {
            let layout = table.layout();
            let n = blocks.metas.len() as int;
            assert(layout.metas == blocks.metas);
            assert(layout.file =~= sealed(blocks).file);
            assert(layout == sealed(blocks));
            lemma_sealed(blocks);
            assert forall|i: int| 0 <= i < n implies #[trigger] layout.block_consistent(i) by {
                assert(blocks.block_consistent(i));
                blocks.lemma_agree_block(layout, n, i);
            }
            blocks.lemma_agree_entries(layout, n, n);
            blocks.lemma_agree_block(layout, n, n - 1);
            assert(self.flushed().file =~= layout.file.subrange(
                0,
                self.flushed().file.len() as int,
            ));
        }
        Ok(table)
    }

    /// Builds the SSTable under the identifier zero.
    pub fn build_for_test(self) -> (r: Result<SsTable, Error>)
        requires
            self.wf(),
            self.entries().len() > 0,
        ensures
            r is Err <==> self.flushed().file.len() + encoded_block_len(self.pending()) + 4
                > u32::MAX,
            match r {
                Ok(table) => {
                    &&& table.wf()
                    &&& table.consistent()
                    &&& table.entries() == self.entries()
                    &&& table.sst_id_spec() == 0
                },
                Err(e) => e == Error::TableTooLarge,
            },
    {
        self.build(0)
    }

    /// Whether nothing was added yet.
    pub fn is_empty(&self) -> (empty: bool)
        requires
            self.wf(),
        ensures
            empty == (self.entries().len() == 0),
    {
        self.meta.len() == 0 && self.builder.is_empty()
    }
}

} // verus!
