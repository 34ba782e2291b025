//! A block: the smallest unit that is read and cached, a run of key-value
//! entries followed, once encoded, by the offset of each entry and their count.

pub mod builder;
pub mod iterator;

pub use builder::BlockBuilder;
pub use iterator::BlockIterator;

use crate::codec::{bytes_from_vec, bytes_view, put_u16, read_u16, u16_at, u16_be};
use crate::key::Entry;
use bytes::Bytes;
use vstd::prelude::*;

verus! {

broadcast use crate::codec::group_be_len;

/// The length of the key of the entry that starts at `start`.
pub open spec fn key_len_at(data: Seq<u8>, start: int) -> int {
    u16_at(data, start) as int
}

/// The length of the value of the entry that starts at `start`.
pub open spec fn value_len_at(data: Seq<u8>, start: int) -> int {
    u16_at(data, start + 2 + key_len_at(data, start)) as int
}

/// The key of the entry that starts at `start`.
pub open spec fn key_at(data: Seq<u8>, start: int) -> Seq<u8> {
    data.subrange(start + 2, start + 2 + key_len_at(data, start))
}

/// The value of the entry that starts at `start`.
pub open spec fn value_at(data: Seq<u8>, start: int) -> Seq<u8> {
    let from = start + 4 + key_len_at(data, start);
    data.subrange(from, from + value_len_at(data, start))
}

/// The bytes from `start` up to `end` are exactly one entry: a key length, the
/// key, a value length and the value.
pub open spec fn entry_fits(data: Seq<u8>, start: int, end: int) -> bool {
    &&& 0 <= start
    &&& start + 4 <= end <= data.len()
    &&& start + 4 + key_len_at(data, start) <= end
    &&& start + 4 + key_len_at(data, start) + value_len_at(data, start) == end
}

/// Where entry `i` ends: at the start of the next entry, or at the end of the
/// data for the last one.
pub open spec fn entry_end(data: Seq<u8>, offsets: Seq<u16>, i: int) -> int {
    if i + 1 < offsets.len() {
        offsets[i + 1] as int
    } else {
        data.len() as int
    }
}

/// Entry `i` lies where its offset says and ends where the next one starts.
pub open spec fn entry_ok(data: Seq<u8>, offsets: Seq<u16>, i: int) -> bool {
    entry_fits(data, offsets[i] as int, entry_end(data, offsets, i))
}

/// The offsets cut the data into entries with nothing before, between or
/// after them.
pub open spec fn layout_wf(data: Seq<u8>, offsets: Seq<u16>) -> bool {
    &&& offsets.len() == 0 ==> data.len() == 0
    &&& offsets.len() > 0 ==> offsets[0] == 0
    &&& forall|i: int| 0 <= i < offsets.len() ==> #[trigger] entry_ok(data, offsets, i)
}

/// The entries that the offsets point at, in order.
pub open spec fn entries_of(data: Seq<u8>, offsets: Seq<u16>) -> Seq<Entry> {
    Seq::new(
        offsets.len(),
        |i: int| (key_at(data, offsets[i] as int), value_at(data, offsets[i] as int)),
    )
}

/// The offsets as bytes, two for each in big-endian order.
pub open spec fn offsets_bytes(offsets: Seq<u16>) -> Seq<u8> {
    Seq::new(
        2 * offsets.len(),
        |j: int|
            if j % 2 == 0 {
                (offsets[j / 2] / 256) as u8
            } else {
                (offsets[j / 2] % 256) as u8
            },
    )
}

/// The encoded form of a block: the data, the offsets, then their count.
pub open spec fn encoded(data: Seq<u8>, offsets: Seq<u16>) -> Seq<u8> {
    data + offsets_bytes(offsets) + u16_be(offsets.len() as u16)
}

/// The entry count that the last two bytes of an encoded block give.
pub open spec fn encoded_count(bytes: Seq<u8>) -> int {
    u16_at(bytes, bytes.len() - 2) as int
}

/// The bytes are long enough to hold the count and as many offsets as it says.
pub open spec fn decodable(bytes: Seq<u8>) -> bool {
    &&& bytes.len() >= 2
    &&& 2 * (encoded_count(bytes) + 1) <= bytes.len()
}

/// Where the data section of an encoded block ends and its offsets begin.
pub open spec fn data_end(bytes: Seq<u8>) -> int {
    bytes.len() - 2 * (encoded_count(bytes) + 1)
}

/// The data section of an encoded block.
pub open spec fn decoded_data(bytes: Seq<u8>) -> Seq<u8> {
    bytes.subrange(0, data_end(bytes))
}

/// The offsets of an encoded block.
pub open spec fn decoded_offsets(bytes: Seq<u8>) -> Seq<u16> {
    Seq::new(encoded_count(bytes) as nat, |i: int| u16_at(bytes, data_end(bytes) + 2 * i))
}

/// Decoding an encoded block gives back its data and its offsets.
pub proof fn lemma_encode_decode(data: Seq<u8>, offsets: Seq<u16>)
    requires
        offsets.len() <= u16::MAX,
    ensures
        decodable(encoded(data, offsets)),
        decoded_data(encoded(data, offsets)) == data,
        decoded_offsets(encoded(data, offsets)) == offsets,
{
    let bytes = encoded(data, offsets);
    let n = offsets.len() as int;
    crate::codec::lemma_u16_round_trip(n as u16);
    assert(bytes.len() == data.len() + 2 * n + 2);
    assert(bytes[bytes.len() - 2] == u16_be(n as u16)[0]);
    assert(bytes[bytes.len() - 1] == u16_be(n as u16)[1]);
    assert(encoded_count(bytes) == n);
    assert(data_end(bytes) == data.len());
    assert(decoded_data(bytes) =~= data);
    assert forall|i: int| 0 <= i < n implies decoded_offsets(bytes)[i] == offsets[i] by {
        let j = 2 * i;
        assert(bytes[data.len() + j] == offsets_bytes(offsets)[j]);
        assert(bytes[data.len() + j + 1] == offsets_bytes(offsets)[j + 1]);
        assert(j % 2 == 0 && j / 2 == i);
        assert((j + 1) % 2 == 1 && (j + 1) / 2 == i);
    }
    assert(decoded_offsets(bytes) =~= offsets);
}

/// Encoding what was decoded gives back the bytes.
pub proof fn lemma_decode_encode(bytes: Seq<u8>)
    requires
        decodable(bytes),
    ensures
        encoded(decoded_data(bytes), decoded_offsets(bytes)) == bytes,
{
    let data = decoded_data(bytes);
    let offsets = decoded_offsets(bytes);
    let n = encoded_count(bytes);
    let e = encoded(data, offsets);
    assert(e.len() == bytes.len());
    assert forall|k: int| 0 <= k < bytes.len() implies e[k] == bytes[k] by {
        if k < data.len() {
        } else if k < data.len() + 2 * n {
            let j = k - data.len();
            assert(e[k] == offsets_bytes(offsets)[j]);
            let i = j / 2;
            assert(offsets[i] == u16_at(bytes, data_end(bytes) + 2 * i));
            crate::codec::lemma_u16_bytes_round_trip(
                bytes[data_end(bytes) + 2 * i],
                bytes[data_end(bytes) + 2 * i + 1],
            );
            assert(u16_be(offsets[i])[0] == bytes[data_end(bytes) + 2 * i]);
            assert(u16_be(offsets[i])[1] == bytes[data_end(bytes) + 2 * i + 1]);
        } else {
            let j = k - data.len() - 2 * n;
            assert(e[k] == u16_be(n as u16)[j]);
            crate::codec::lemma_u16_bytes_round_trip(
                bytes[bytes.len() - 2],
                bytes[bytes.len() - 1],
            );
            assert(u16_be(n as u16)[0] == bytes[bytes.len() - 2]);
            assert(u16_be(n as u16)[1] == bytes[bytes.len() - 1]);
        }
    }
    assert(e =~= bytes);
}

/// A collection of key-value entries, sorted by key where it was built from
/// sorted input.
pub struct Block {
    /// The entries, one after the other.
    pub data: Vec<u8>,
    /// Where each entry starts in `data`.
    pub offsets: Vec<u16>,
}

impl Block {
    /// The block holds at least one entry, its offsets cut the data into
    /// entries exactly, and their count fits the sixteen bits it is stored in.
    pub open spec fn wf(&self) -> bool {
        &&& layout_wf(self.data@, self.offsets@)
        &&& 1 <= self.offsets@.len() <= u16::MAX
    }

    /// The entries of the block, in order.
    pub open spec fn entries(&self) -> Seq<Entry> {
        entries_of(self.data@, self.offsets@)
    }

    /// The encoded form: the data, each offset as two bytes, then the count of
    /// entries as two bytes.
    pub fn encode(&self) -> (b: Bytes)
        requires
            self.offsets@.len() <= u16::MAX,
        ensures
            bytes_view(b) == encoded(self.data@, self.offsets@),
    {
        let num_of_elements = self.offsets.len() as u16;
        let mut buf = self.data.clone();
        assert(buf@ =~= self.data@);
        let mut i: usize = 0;
        while i < self.offsets.len()
            invariant
                i <= self.offsets@.len(),
                buf@ == self.data@ + offsets_bytes(self.offsets@.take(i as int)),
            decreases self.offsets@.len() - i,
        {
            put_u16(&mut buf, self.offsets[i]);
            proof {
                let before = offsets_bytes(self.offsets@.take(i as int));
                let after = offsets_bytes(self.offsets@.take(i + 1));
                reveal(u16_be);
                assert(after =~= before + u16_be(self.offsets@[i as int]));
                assert(buf@ =~= self.data@ + after);
            }
            i += 1;
        }
        assert(self.offsets@.take(i as int) =~= self.offsets@);
        put_u16(&mut buf, num_of_elements);
        bytes_from_vec(buf)
    }

    /// The block that `data` encodes: everything before the offsets is its
    /// data, and the last two bytes say how many offsets there are.
    pub fn decode(data: &[u8]) -> (block: Self)
        requires
            decodable(data@),
        ensures
            block.data@ == decoded_data(data@),
            block.offsets@ == decoded_offsets(data@),
    {
        let num_of_elements = read_u16(data, data.len() - 2) as usize;
        let payload_len = data.len() - 2 * (num_of_elements + 1);
        let payload = vstd::slice::slice_subrange(data, 0, payload_len);
        let mut offsets: Vec<u16> = Vec::new();
        let mut i: usize = 0;
        while i < num_of_elements
            invariant
                decodable(data@),
                num_of_elements == encoded_count(data@),
                payload_len == data_end(data@),
                payload_len + 2 * num_of_elements + 2 == data@.len() <= usize::MAX,
                i <= num_of_elements,
                offsets@ == decoded_offsets(data@).take(i as int),
            decreases num_of_elements - i,
        {
            let offset = read_u16(data, payload_len + 2 * i);
            offsets.push(offset);
            assert(offsets@ =~= decoded_offsets(data@).take(i + 1));
            i += 1;
        }
        assert(offsets@ =~= decoded_offsets(data@));
        Self { data: crate::key::copy_bytes(payload), offsets }
    }

    /// The block that `data` encodes, if `data` has the shape of an encoded
    /// block whose entries can be read one by one.
    pub fn decode_checked(data: &[u8]) -> (r: Option<Self>)
        ensures
            r is Some <==> decodable(data@) && decoded_offsets(data@).len() >= 1 && layout_wf(
                decoded_data(data@),
                decoded_offsets(data@),
            ),
            r matches Some(block) ==> {
                &&& block.wf()
                &&& block.data@ == decoded_data(data@)
                &&& block.offsets@ == decoded_offsets(data@)
            },
    {
        let len = data.len();
        if len < 2 {
            return None;
        }
        let num_of_elements = read_u16(data, len - 2) as usize;
        if (len - 2) / 2 < num_of_elements {
            return None;
        }
        let block = Self::decode(data);
        if block.is_well_formed() {
            Some(block)
        } else {
            None
        }
    }

    /// Whether the block can be read entry by entry: it is not empty and
    /// every offset points at an entry that ends where the next one starts.
    pub fn is_well_formed(&self) -> (ok: bool)
        ensures
            ok == self.wf(),
    {
        let n = self.offsets.len();
        if n == 0 || n > 0xffff || self.offsets[0] != 0 {
            return false;
        }
        let mut i: usize = 0;
        while i < n
            invariant
                n == self.offsets@.len(),
                1 <= n <= 0xffff,
                i <= n,
                self.offsets@[0] == 0,
                forall|j: int| 0 <= j < i ==> #[trigger] entry_ok(self.data@, self.offsets@, j),
            decreases n - i,
        {
            if !self.entry_is_well_formed(i) {
                return false;
            }
            i += 1;
        }
        true
    }

    /// The key of entry `i`.
    pub fn entry_key(&self, i: usize) -> (key: &[u8])
        requires
            self.wf(),
            i < self.offsets@.len(),
        ensures
            key@ == self.entries()[i as int].0,
    {
        proof {
            assert(entry_ok(self.data@, self.offsets@, i as int));
        }
        let start = self.offsets[i] as usize;
        let key_len = read_u16(self.data.as_slice(), start) as usize;
        vstd::slice::slice_subrange(self.data.as_slice(), start + 2, start + 2 + key_len)
    }

    /// The value of entry `i`.
    pub fn entry_value(&self, i: usize) -> (value: &[u8])
        requires
            self.wf(),
            i < self.offsets@.len(),
        ensures
            value@ == self.entries()[i as int].1,
    {
        proof {
            assert(entry_ok(self.data@, self.offsets@, i as int));
        }
        let start = self.offsets[i] as usize;
        let key_len = read_u16(self.data.as_slice(), start) as usize;
        let value_len = read_u16(self.data.as_slice(), start + 2 + key_len) as usize;
        let from = start + 4 + key_len;
        vstd::slice::slice_subrange(self.data.as_slice(), from, from + value_len)
    }

    /// Whether entry `i` lies where its offset says and ends where the next
    /// one starts.
    fn entry_is_well_formed(&self, i: usize) -> (ok: bool)
        requires
            i < self.offsets@.len(),
        ensures
            ok == entry_ok(self.data@, self.offsets@, i as int),
    {
        let n = self.offsets.len();
        let start = self.offsets[i] as usize;
        let end = if i + 1 < n {
            self.offsets[i + 1] as usize
        } else {
            self.data.len()
        };
        if end > self.data.len() || end < start || end - start < 4 {
            return false;
        }
        let key_len = read_u16(self.data.as_slice(), start) as usize;
        if end - start - 4 < key_len {
            return false;
        }
        let value_len = read_u16(self.data.as_slice(), start + 2 + key_len) as usize;
        end - start - 4 - key_len == value_len
    }
}

} // verus!
