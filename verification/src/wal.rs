//! The write-ahead log: records of a key and a value, each after its length,
//! one after the other. A record that was cut short at the end of the log is
//! left out when the log is read back.

use crate::codec::{lemma_u32_at_concat, put_slice, put_u32, read_u32, u32_at, u32_be};
use crate::key::{copy_bytes, Entry};
use bytes::Bytes;
use crossbeam_skiplist::SkipMap;
use vstd::prelude::*;

verus! {

broadcast use crate::codec::group_be_len;

/// `crossbeam_skiplist::SkipMap`, an ordered map that many threads may share.
#[verifier::external_type_specification]
#[verifier::external_body]
#[verifier::reject_recursive_types(K)]
#[verifier::reject_recursive_types(V)]
pub struct ExSkipMap<K, V>(SkipMap<K, V>);

/// The keys of a `crossbeam_skiplist::SkipMap` of byte buffers with the value
/// that each maps to.
pub uninterp spec fn skipmap_view(map: SkipMap<Bytes, Bytes>) -> Map<Seq<u8>, Seq<u8>>;

/// Calls `crossbeam_skiplist::SkipMap::insert` with copies of the key and the
/// value, which maps the key to the value and replaces what it mapped to
/// before. The map is taken exclusively, so that nothing else changes it
/// during the call.
#[verifier::external_body]
pub(crate) fn skipmap_insert(map: &mut SkipMap<Bytes, Bytes>, key: &[u8], value: &[u8])
    ensures
        skipmap_view(*final(map)) == skipmap_view(*old(map)).insert(key@, value@),
{
    map.insert(Bytes::copy_from_slice(key), Bytes::copy_from_slice(value));
}

/// One record as it is stored: the key after its length in four bytes, then
/// the value after its length in four bytes.
pub open spec fn record_bytes(key: Seq<u8>, value: Seq<u8>) -> Seq<u8> {
    u32_be(key.len() as u32) + key + u32_be(value.len() as u32) + value
}

/// The key and the value of the record are short enough for their lengths to
/// be stored.
pub open spec fn record_encodable(record: Entry) -> bool {
    record.0.len() <= u32::MAX && record.1.len() <= u32::MAX
}

/// A log as it is stored: its records one after the other.
pub open spec fn log_bytes(records: Seq<Entry>) -> Seq<u8>
    decreases records.len(),
{
    if records.len() == 0 {
        Seq::<u8>::empty()
    } else {
        record_bytes(records[0].0, records[0].1) + log_bytes(records.drop_first())
    }
}

/// The number of bytes that the record at the front of `data` takes, if
/// `data` holds all of it.
pub open spec fn parse_record_len(data: Seq<u8>) -> Option<int> {
    if data.len() < 4 {
        None
    } else {
        let key_len = u32_at(data, 0) as int;
        if data.len() < 8 + key_len {
            None
        } else {
            let value_len = u32_at(data, 4 + key_len) as int;
            if data.len() < 8 + key_len + value_len {
                None
            } else {
                Some(8 + key_len + value_len)
            }
        }
    }
}

/// The record at the front of `data`.
pub open spec fn parse_record(data: Seq<u8>) -> Entry {
    let key_len = u32_at(data, 0) as int;
    let value_len = u32_at(data, 4 + key_len) as int;
    (data.subrange(4, 4 + key_len), data.subrange(8 + key_len, 8 + key_len + value_len))
}

/// The records that `data` holds in full, in order, up to the first one that
/// it does not.
pub open spec fn parse_log(data: Seq<u8>) -> Seq<Entry>
    decreases data.len(),
{
    match parse_record_len(data) {
        None => Seq::<Entry>::empty(),
        Some(len) => seq![parse_record(data)] + parse_log(data.skip(len)),
    }
}

/// The map after the records were inserted into it in order, a later record
/// replacing what an earlier one stored under the same key.
pub open spec fn replayed(map: Map<Seq<u8>, Seq<u8>>, records: Seq<Entry>) -> Map<
    Seq<u8>,
    Seq<u8>,
>
    decreases records.len(),
{
    if records.len() == 0 {
        map
    } else {
        replayed(map, records.drop_last()).insert(records.last().0, records.last().1)
    }
}

/// The records of a vector of them, as plain values.
pub open spec fn records_view(records: Seq<(Vec<u8>, Vec<u8>)>) -> Seq<Entry> {
    Seq::new(records.len(), |i: int| (records[i].0@, records[i].1@))
}

/// A stored record, followed by anything, reads back as the record, and
/// what followed it is what is left.
pub proof fn lemma_parse_record(key: Seq<u8>, value: Seq<u8>, rest: Seq<u8>)
    requires
        record_encodable((key, value)),
    ensures
        parse_record_len(record_bytes(key, value) + rest) == Some(
            record_bytes(key, value).len() as int,
        ),
        parse_record(record_bytes(key, value) + rest) == (key, value),
        (record_bytes(key, value) + rest).skip(record_bytes(key, value).len() as int) == rest,
{
    let record = record_bytes(key, value);
    let data = record + rest;
    let kl = key.len() as int;
    let vl = value.len() as int;
    assert(record.len() == 8 + kl + vl);
    assert(u32_at(data, 0) == kl) by {
        lemma_u32_at_concat(Seq::<u8>::empty(), kl as u32, key + u32_be(vl as u32) + value + rest);
        assert(Seq::<u8>::empty() + u32_be(kl as u32) + (key + u32_be(vl as u32) + value + rest)
            =~= data);
    }
    assert(u32_at(data, 4 + kl) == vl) by {
        lemma_u32_at_concat(u32_be(kl as u32) + key, vl as u32, value + rest);
        assert((u32_be(kl as u32) + key) + u32_be(vl as u32) + (value + rest) =~= data);
    }
    assert(data.subrange(4, 4 + kl) =~= key);
    assert(data.subrange(8 + kl, 8 + kl + vl) =~= value);
    assert(data.skip(record.len() as int) =~= rest);
}

/// A record that was cut short does not read back as a record.
pub proof fn lemma_parse_partial(key: Seq<u8>, value: Seq<u8>, cut: int)
    requires
        record_encodable((key, value)),
        0 <= cut < record_bytes(key, value).len(),
    ensures
        parse_record_len(record_bytes(key, value).take(cut)) is None,
{
    let record = record_bytes(key, value);
    let data = record.take(cut);
    let kl = key.len() as int;
    let vl = value.len() as int;
    assert(record.len() == 8 + kl + vl);
    lemma_parse_record(key, value, Seq::<u8>::empty());
    assert(record + Seq::<u8>::empty() =~= record);
    if cut >= 4 {
        assert(u32_at(data, 0) == u32_at(record, 0));
        if cut >= 8 + kl {
            assert(u32_at(data, 4 + kl) == u32_at(record, 4 + kl));
        }
    }
}

/// Reading back a stored log that ends in a record cut short gives the
/// records before it, and nothing of the one that was cut.
pub proof fn lemma_recover_after_crash(records: Seq<Entry>, key: Seq<u8>, value: Seq<u8>, cut: int)
    requires
        forall|i: int| 0 <= i < records.len() ==> record_encodable(#[trigger] records[i]),
        record_encodable((key, value)),
        0 <= cut < record_bytes(key, value).len(),
    ensures
        parse_log(log_bytes(records) + record_bytes(key, value).take(cut)) == records,
    decreases records.len(),
{
    let partial = record_bytes(key, value).take(cut);
    if records.len() == 0 {
        lemma_parse_partial(key, value, cut);
        assert(log_bytes(records) + partial =~= partial);
        assert(records =~= Seq::<Entry>::empty());
    } else {
        let first = records[0];
        let rest = records.drop_first();
        assert(record_encodable(first));
        assert forall|i: int| 0 <= i < rest.len() implies record_encodable(#[trigger] rest[i]) by {
            assert(rest[i] == records[i + 1]);
        }
        lemma_recover_after_crash(rest, key, value, cut);
        let tail = log_bytes(rest) + partial;
        lemma_parse_record(first.0, first.1, tail);
        assert(log_bytes(records) + partial =~= record_bytes(first.0, first.1) + tail);
        assert(seq![first] + rest =~= records);
    }
}

/// Reading back a stored log gives its records.
pub proof fn lemma_recover_whole(records: Seq<Entry>)
    requires
        forall|i: int| 0 <= i < records.len() ==> record_encodable(#[trigger] records[i]),
    ensures
        parse_log(log_bytes(records)) == records,
{
    let none = Seq::<u8>::empty();
    lemma_recover_after_crash(records, none, none, 0);
    assert(record_bytes(none, none).take(0) =~= none);
    assert(log_bytes(records) + none =~= log_bytes(records));
}

/// Appends the stored form of one record to `buf`.
pub fn encode_record(buf: &mut Vec<u8>, key: &[u8], value: &[u8])
    requires
        key@.len() <= u32::MAX,
        value@.len() <= u32::MAX,
    ensures
        final(buf)@ == old(buf)@ + record_bytes(key@, value@),
{
    put_u32(buf, key.len() as u32);
    put_slice(buf, key);
    put_u32(buf, value.len() as u32);
    put_slice(buf, value);
    assert(buf@ =~= old(buf)@ + record_bytes(key@, value@));
}

/// Where the record that starts at `pos` ends, if `data` holds all of it.
fn record_end(data: &[u8], pos: usize) -> (end: Option<usize>)
    requires
        pos <= data@.len(),
    ensures
        match end {
            Some(end) => parse_record_len(data@.skip(pos as int)) == Some(end - pos) && pos + 8
                <= end <= data@.len(),
            None => parse_record_len(data@.skip(pos as int)) is None,
        },
{
    let ghost tail = data@.skip(pos as int);
    let len = data.len();
    if len - pos < 4 {
        return None;
    }
    let key_len = read_u32(data, pos) as usize;
    assert(u32_at(tail, 0) == key_len);
    if len - pos - 4 < 4 || len - pos - 8 < key_len {
        return None;
    }
    let value_len = read_u32(data, pos + 4 + key_len) as usize;
    assert(u32_at(tail, 4 + key_len) == value_len);
    if len - pos - 8 - key_len < value_len {
        return None;
    }
    Some(pos + 8 + key_len + value_len)
}

/// The key and the value of the record that lies from `pos` to `end`.
fn record_at(data: &[u8], pos: usize, end: usize) -> (record: (&[u8], &[u8]))
    requires
        pos + 8 <= end <= data@.len(),
        parse_record_len(data@.skip(pos as int)) == Some(end - pos),
    ensures
        (record.0@, record.1@) == parse_record(data@.skip(pos as int)),
{
    let ghost tail = data@.skip(pos as int);
    let key_len = read_u32(data, pos) as usize;
    assert(u32_at(tail, 0) == key_len);
    let key = vstd::slice::slice_subrange(data, pos + 4, pos + 4 + key_len);
    let value = vstd::slice::slice_subrange(data, pos + 8 + key_len, end);
    proof {
        assert(u32_at(tail, 4 + key_len) == end - pos - 8 - key_len);
        assert(key@ =~= parse_record(tail).0);
        assert(value@ =~= parse_record(tail).1);
    }
    (key, value)
}

/// Reads the records of a log back, in order. A record that the log does
/// not hold in full ends the reading; it and what follows are left out.
pub fn decode_records(data: &[u8]) -> (records: Vec<(Vec<u8>, Vec<u8>)>)
    ensures
        records_view(records@) == parse_log(data@),
{
    let mut records: Vec<(Vec<u8>, Vec<u8>)> = Vec::new();
    let mut pos: usize = 0;
    proof {
        assert(data@.skip(0) =~= data@);
        assert(records_view(records@) + parse_log(data@) =~= parse_log(data@));
    }
    loop
        invariant
            pos <= data@.len(),
            parse_log(data@) == records_view(records@) + parse_log(data@.skip(pos as int)),
        ensures
            records_view(records@) == parse_log(data@),
        decreases data@.len() - pos,
    {
        let ghost tail = data@.skip(pos as int);
        match record_end(data, pos) {
            None => {
                proof {
                    assert(records_view(records@) + Seq::<Entry>::empty() =~= records_view(
                        records@,
                    ));
                }
                break;
            },
            Some(end) => {
                let (key, value) = record_at(data, pos, end);
                let record = (copy_bytes(key), copy_bytes(value));
                proof {
                    let grown = records@.push(record);
                    assert(tail.skip(end - pos) =~= data@.skip(end as int));
                    assert(records_view(grown) =~= records_view(records@).push(
                        parse_record(tail),
                    ));
                    assert(records_view(records@) + (seq![parse_record(tail)] + parse_log(
                        data@.skip(end as int),
                    )) =~= records_view(grown) + parse_log(data@.skip(end as int)));
                }
                records.push(record);
                pos = end;
            },
        }
    }
    records
}

/// Replays a log into `skiplist`: inserts every record that the log holds in
/// full, in order, and returns how many there were. A record cut short at
/// the end of the log is left out.
pub fn recover(data: &[u8], skiplist: &mut SkipMap<Bytes, Bytes>) -> (count: usize)
    ensures
        count == parse_log(data@).len(),
        skipmap_view(*final(skiplist)) == replayed(skipmap_view(*old(skiplist)), parse_log(data@)),
{
    let mut count: usize = 0;
    let mut pos: usize = 0;
    let ghost mut done = Seq::<Entry>::empty();
    proof {
        assert(data@.skip(0) =~= data@);
        assert(done + parse_log(data@) =~= parse_log(data@));
    }
    loop
        invariant
            pos <= data@.len(),
            8 * count <= pos,
            count == done.len(),
            parse_log(data@) == done + parse_log(data@.skip(pos as int)),
            skipmap_view(*skiplist) == replayed(skipmap_view(*old(skiplist)), done),
        ensures
            count == done.len(),
            done == parse_log(data@),
            skipmap_view(*skiplist) == replayed(skipmap_view(*old(skiplist)), done),
        decreases data@.len() - pos,
    {
        let ghost tail = data@.skip(pos as int);
        match record_end(data, pos) {
            None => {
                proof {
                    assert(done + Seq::<Entry>::empty() =~= done);
                }
                break;
            },
            Some(end) => {
                let (key, value) = record_at(data, pos, end);
                skipmap_insert(skiplist, key, value);
                proof {
                    let record = parse_record(tail);
                    let grown = done.push(record);
                    assert(grown.drop_last() =~= done);
                    assert(tail.skip(end - pos) =~= data@.skip(end as int));
                    assert(done + (seq![record] + parse_log(data@.skip(end as int))) =~= grown
                        + parse_log(data@.skip(end as int)));
                    done = grown;
                }
                count += 1;
                pos = end;
            },
        }
    }
    count
}

} // verus!
