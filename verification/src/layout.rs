//! The layout of a database and what its bytes mean.
//!
//! A database is one run of bytes: a header of 256 `(position, slots)` pairs,
//! then the records, then 256 hash tables of `(hash, position)` slots. Every
//! number is 32 bits wide and little-endian.
use crate::helpers::{join, le_value, spec_hash};
use crate::types::{Error, IoFault};
use vstd::prelude::*;

verus! {

/// The size of the header in bytes.
pub const HEADER_SIZE: usize = 2048;

/// The number of hash tables, and so of header entries.
pub const BUCKETS: usize = 256;

/// A key with its value.
pub type Record = (Seq<u8>, Seq<u8>);

/// The byte at `i`, or zero past the end.
pub open spec fn byte_at(data: Seq<u8>, i: int) -> u8 {
    if 0 <= i < data.len() {
        data[i]
    } else {
        0
    }
}

/// The number stored at `pos`; bytes past the end count as zero.
pub open spec fn word_at(data: Seq<u8>, pos: int) -> u32 {
    le_value(
        byte_at(data, pos),
        byte_at(data, pos + 1),
        byte_at(data, pos + 2),
        byte_at(data, pos + 3),
    )
}

/// The pair of numbers stored at `pos`.
pub open spec fn pair_at(data: Seq<u8>, pos: int) -> (u32, u32) {
    (word_at(data, pos), word_at(data, pos + 4))
}

/// Up to `n` bytes from `pos` on: fewer where the data ends first.
pub open spec fn read_clamped(data: Seq<u8>, pos: int, n: int) -> Seq<u8>
    recommends
        0 <= pos,
        0 <= n,
{
    let from = if pos < data.len() { pos } else { data.len() as int };
    let to = if pos + n < data.len() { pos + n } else { data.len() as int };
    data.subrange(from, to)
}

/// The header: for each bucket, where its table starts and how many slots
/// it has.
pub open spec fn header_entries(data: Seq<u8>) -> Seq<(u32, u32)> {
    Seq::new(BUCKETS as nat, |b: int| pair_at(data, 8 * b))
}

/// The least table position among `index`.
pub open spec fn min_position(index: Seq<(u32, u32)>) -> u32
    decreases index.len(),
{
    if index.len() == 0 {
        u32::MAX
    } else {
        let rest = min_position(index.drop_last());
        if index.last().0 < rest {
            index.last().0
        } else {
            rest
        }
    }
}

/// The number of records that `index` accounts for: half its slots, table
/// by table.
pub open spec fn slot_total(index: Seq<(u32, u32)>) -> nat
    decreases index.len(),
{
    if index.len() == 0 {
        0
    } else {
        slot_total(index.drop_last()) + (index.last().1 / 2) as nat
    }
}

/// Where the records end and the hash tables begin.
pub open spec fn table_start(data: Seq<u8>) -> u32 {
    min_position(header_entries(data))
}

/// The number of records, as the header tells it.
pub open spec fn record_count(data: Seq<u8>) -> nat {
    slot_total(header_entries(data))
}

/// The key of the record at `pos`.
pub open spec fn key_at(data: Seq<u8>, pos: int) -> Seq<u8> {
    read_clamped(data, pos + 8, word_at(data, pos) as int)
}

/// The value of the record at `pos`.
pub open spec fn value_at(data: Seq<u8>, pos: int) -> Seq<u8> {
    read_clamped(data, pos + 8 + word_at(data, pos), word_at(data, pos + 4) as int)
}

/// Where the record at `pos` ends, going by its two length fields.
pub open spec fn record_end(data: Seq<u8>, pos: int) -> int {
    pos + 8 + word_at(data, pos) + word_at(data, pos + 4)
}

/// The records from `pos` up to `end`, in storage order.
#[verifier::opaque]
pub open spec fn records_from(data: Seq<u8>, end: int, pos: int) -> Seq<Record>
    decreases vstd::math::max(end - pos, 0),
{
    if pos >= end {
        Seq::empty()
    } else {
        seq![(key_at(data, pos), value_at(data, pos))] + records_from(
            data,
            end,
            record_end(data, pos),
        )
    }
}

/// An iteration that has not reached its end gives the record at which it
/// stands, and then what it gives from the end of that record on.
pub proof fn lemma_records_from_step(data: Seq<u8>, end: int, pos: int)
    requires
        pos < end,
    ensures
        records_from(data, end, pos) == seq![(key_at(data, pos), value_at(data, pos))]
            + records_from(data, end, record_end(data, pos)),
{
    reveal_with_fuel(records_from, 1);
}

/// An iteration that has reached its end gives nothing more.
pub proof fn lemma_records_from_end(data: Seq<u8>, end: int, pos: int)
    requires
        pos >= end,
    ensures
        records_from(data, end, pos) == Seq::<Record>::empty(),
{
    reveal_with_fuel(records_from, 1);
}

/// All records of the database, in storage order.
pub open spec fn all_records(data: Seq<u8>) -> Seq<Record> {
    records_from(data, table_start(data) as int, HEADER_SIZE as int)
}

/// The keys of all records, in storage order.
pub open spec fn all_keys(data: Seq<u8>) -> Seq<Seq<u8>> {
    all_records(data).map_values(|r: Record| r.0)
}

/// Slot index `i` of a table of `m` slots, for `i` below `2 * m`: past the
/// last slot the count starts again at the first.
pub open spec fn wrap(i: int, m: int) -> int {
    if i < m {
        i
    } else {
        i - m
    }
}

/// The bucket that a hash belongs to.
pub open spec fn bucket_of(h: u32) -> int {
    h as int % 256
}

/// The slot at which the search for a hash starts in a table of `m` slots.
pub open spec fn home_slot(h: u32, m: int) -> int {
    (h as int / 256) % m
}

/// The search through one table, from the `j`th probe on. The table has
/// `nslots` slots from byte `start`; the search began at slot `first` and
/// has `skip` more matches to pass over before it returns one.
pub open spec fn probe(
    data: Seq<u8>,
    key: Seq<u8>,
    start: int,
    nslots: int,
    first: int,
    j: int,
    skip: int,
) -> Result<Seq<u8>, Error>
    decreases nslots - j,
{
    if j >= nslots {
        Err(Error::KeyNotInCDB)
    } else {
        let pos = start + 8 * wrap(first + j, nslots);
        if pos + 8 > data.len() {
            Err(Error::IOError(IoFault::UnexpectedEof))
        } else {
            let (slot_hash, record) = pair_at(data, pos);
            if slot_hash == 0 {
                Err(Error::KeyNotInCDB)
            } else if slot_hash != spec_hash(key) {
                probe(data, key, start, nslots, first, j + 1, skip)
            } else if record + 8 > data.len() {
                Err(Error::IOError(IoFault::UnexpectedEof))
            } else if key_at(data, record as int) != key {
                probe(data, key, start, nslots, first, j + 1, skip)
            } else if skip > 0 {
                probe(data, key, start, nslots, first, j + 1, skip - 1)
            } else {
                Ok(value_at(data, record as int))
            }
        }
    }
}

/// What a lookup of the `occurrence`th record under `key` gives.
pub open spec fn lookup(data: Seq<u8>, key: Seq<u8>, occurrence: u32) -> Result<Seq<u8>, Error> {
    let h = spec_hash(key);
    let (start, nslots) = header_entries(data)[bucket_of(h)];
    if nslots <= occurrence {
        Err(Error::KeyNotInCDB)
    } else {
        probe(
            data,
            key,
            start as int,
            nslots as int,
            home_slot(h, nslots as int),
            0,
            occurrence as int,
        )
    }
}

/// The values that lookups of `key` give from `occurrence` on, up to the
/// first lookup that fails.
pub open spec fn values_from(data: Seq<u8>, key: Seq<u8>, occurrence: u32) -> Seq<Seq<u8>>
    decreases u32::MAX - occurrence,
{
    match lookup(data, key, occurrence) {
        Ok(v) => if occurrence < u32::MAX {
            seq![v] + values_from(data, key, (occurrence + 1) as u32)
        } else {
            seq![v]
        },
        Err(_) => Seq::empty(),
    }
}

/// The views of a list of byte strings.
pub open spec fn views(list: Seq<Vec<u8>>) -> Seq<Seq<u8>> {
    list.map_values(|bytes: Vec<u8>| bytes@)
}

/// Read the number stored at `pos`.
pub(crate) fn read_word(data: &[u8], pos: usize) -> (x: u32)
    requires
        pos + 4 <= data@.len(),
    ensures
        x == word_at(data@, pos as int),
{
    join(data[pos], data[pos + 1], data[pos + 2], data[pos + 3])
}

/// The byte at `i`, or zero past the end.
pub(crate) fn read_byte_padded(data: &[u8], i: u64) -> (b: u8)
    ensures
        b == byte_at(data@, i as int),
{
    if i < data.len() as u64 {
        data[i as usize]
    } else {
        0
    }
}

/// Read the number stored at `pos`, with zero for each byte past the end.
pub(crate) fn read_word_padded(data: &[u8], pos: u64) -> (x: u32)
    requires
        pos <= 0x8_0000_0000,
    ensures
        x == word_at(data@, pos as int),
{
    join(
        read_byte_padded(data, pos),
        read_byte_padded(data, pos + 1),
        read_byte_padded(data, pos + 2),
        read_byte_padded(data, pos + 3),
    )
}

/// Copy up to `n` bytes from `pos` on.
pub(crate) fn copy_clamped(data: &[u8], pos: u64, n: u32) -> (out: Vec<u8>)
    requires
        pos <= 0x8_0000_0000,
    ensures
        out@ == read_clamped(data@, pos as int, n as int),
{
    let len: u64 = data.len() as u64;
    let from: u64 = if pos < len { pos } else { len };
    let to: u64 = if pos + (n as u64) < len { pos + (n as u64) } else { len };
    vstd::slice::slice_to_vec(vstd::slice::slice_subrange(data, from as usize, to as usize))
}

/// Whether the bytes from `pos` on, up to `n` of them, are exactly `key`.
pub(crate) fn clamped_equals(data: &[u8], pos: u64, n: u32, key: &[u8]) -> (same: bool)
    requires
        pos <= 0x8_0000_0000,
    ensures
        same == (read_clamped(data@, pos as int, n as int) == key@),
{
    let len: u64 = data.len() as u64;
    let from: u64 = if pos < len { pos } else { len };
    let to: u64 = if pos + (n as u64) < len { pos + (n as u64) } else { len };
    let ghost got = read_clamped(data@, pos as int, n as int);
    if to - from != key.len() as u64 {
        return false;
    }
    let base: usize = from as usize;
    let mut i: usize = 0;
    while i < key.len()
        invariant
            i <= key@.len(),
            got == read_clamped(data@, pos as int, n as int),
            got == data@.subrange(base as int, base + key@.len()),
            base + key@.len() <= data@.len() <= usize::MAX,
            forall|t: int| 0 <= t < i ==> got[t] == key@[t],
        decreases key@.len() - i,
    {
        if data[base + i] != key[i] {
            assert(got[i as int] != key@[i as int]);
            return false;
        }
        i += 1;
    }
    assert(got =~= key@);
    true
}

} // verus!
