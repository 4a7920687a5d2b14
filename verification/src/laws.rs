//! What holds of every database that a writer builds from nothing: what was
//! put is what is read.
use crate::helpers::spec_hash;
use crate::history::{
    buildable, built_buckets, built_bytes, bytes_after, database_of, hash_positions,
    holds_after, lemma_bytes_after_grow, lemma_empty_slots, lemma_list_gains_positions,
    lemma_lists_after_len, lemma_lists_after_slots, lemma_no_record_no_value,
    lemma_positions_give_values, lemma_records_from, lemma_values_of_len, lists_after,
    values_of,
};
use crate::image::{
    add_entry, blank_header, empty_buckets, lemma_finished_header, lemma_finished_layout,
    overwrite_front, record_bytes, slots_before,
};
use crate::layout::{
    all_records, bucket_of, lemma_records_from_end, lookup, record_count, records_from,
    values_from, Record, BUCKETS, HEADER_SIZE,
};
use crate::probing::positions_with;
use crate::search::{lemma_lookup_follows_list, lemma_values_from, nth_value};
use crate::tables::Slot;
use crate::types::Error;
use vstd::prelude::*;

verus! {

/// A writer over an empty file has put nothing yet.
pub proof fn lemma_nothing_put()
    ensures
        built_bytes(Seq::empty()) == overwrite_front(Seq::empty(), blank_header()),
        built_buckets(Seq::empty()) == empty_buckets(),
{
}

/// A put adds the bytes of its record to the bytes that were there, and
/// the entry of its record to the bucket lists.
pub proof fn lemma_one_more_put(
    start: Seq<u8>,
    lists: Seq<Seq<Slot>>,
    records: Seq<Record>,
    key: Seq<u8>,
    value: Seq<u8>,
)
    ensures
        bytes_after(start, records.push((key, value))) == bytes_after(start, records)
            + record_bytes(key, value),
        lists_after(start, lists, records.push((key, value))) == add_entry(
            lists_after(start, lists, records),
            (spec_hash(key), bytes_after(start, records).len() as u32),
        ),
{
    assert(records.push((key, value)).drop_last() == records);
}

/// Where the finished database fits, so did each put on the way to it.
pub proof fn lemma_each_put_fits(records: Seq<Record>, i: int)
    requires
        buildable(records),
        0 <= i < records.len(),
    ensures
        built_bytes(records.take(i)).len() + 8 + records[i].0.len() + records[i].1.len()
            <= u32::MAX,
        buildable(records.take(i)),
{
    lemma_bytes_after_grow(blank_header(), records, i);
    lemma_bytes_after_grow(blank_header(), records, i + 1);
    assert(records.take(i + 1).drop_last() == records.take(i));
    lemma_empty_slots(BUCKETS as int);
    lemma_lists_after_slots(blank_header(), empty_buckets(), records);
    lemma_lists_after_slots(blank_header(), empty_buckets(), records.take(i));
}

/// A finished database holds the records that were put, where they were put.
proof fn lemma_database_holds_records(records: Seq<Record>)
    requires
        buildable(records),
    ensures
        holds_after(database_of(records), blank_header(), records),
        built_bytes(records).len() >= HEADER_SIZE,
        built_buckets(records).len() == BUCKETS,
        slots_before(built_buckets(records), BUCKETS as int) == 2 * records.len(),
{
    reveal(holds_after);
    lemma_bytes_after_grow(blank_header(), records, 0);
    lemma_lists_after_len(blank_header(), empty_buckets(), records);
    lemma_finished_layout(built_bytes(records), built_buckets(records));
    lemma_empty_slots(BUCKETS as int);
    lemma_lists_after_slots(blank_header(), empty_buckets(), records);
}

/// What a lookup gives on a database that was built from nothing: under a
/// key whose hash is not zero, the values that were put under the key, in
/// the order in which they were put, and after the last of them the error of
/// a key that is not there; under a key whose hash is zero that error
/// always.
pub proof fn lemma_lookup_in_database(records: Seq<Record>, key: Seq<u8>, occurrence: u32)
    requires
        buildable(records),
    ensures
        lookup(database_of(records), key, occurrence) == if spec_hash(key) != 0 {
            nth_value(values_of(records, key), occurrence as int)
        } else {
            Err(Error::KeyNotInCDB)
        },
        values_of(records, key).len() <= records.len() <= 0x1000_0000,
{
    let h = spec_hash(key);
    let data = database_of(records);
    lemma_database_holds_records(records);
    lemma_values_of_len(records, key);
    lemma_list_gains_positions(blank_header(), empty_buckets(), records, h);
    lemma_positions_give_values(data, blank_header(), records, key);
    assert(positions_with(empty_buckets()[bucket_of(h)], h) =~= Seq::<u32>::empty());
    assert(Seq::<u32>::empty() + hash_positions(blank_header(), records, h) =~= hash_positions(
        blank_header(),
        records,
        h,
    ));
    lemma_lookup_follows_list(built_bytes(records), built_buckets(records), key, occurrence);
}

/// A lookup on a database that was built from nothing finds each value
/// that was put under a key at its place: the `i`th lookup under the key
/// gives the value of the `i`th record that was put under it, and a lookup
/// past the last of them fails with the error of a key that is not there.
/// This holds of every key whose hash is not zero.
pub proof fn lemma_lookup_finds_each_value(records: Seq<Record>, key: Seq<u8>, i: u32)
    requires
        buildable(records),
        spec_hash(key) != 0,
    ensures
        i < values_of(records, key).len() ==> lookup(database_of(records), key, i) == Ok::<
            Seq<u8>,
            Error,
        >(values_of(records, key)[i as int]),
        i >= values_of(records, key).len() ==> lookup(database_of(records), key, i) == Err::<
            Seq<u8>,
            Error,
        >(Error::KeyNotInCDB),
{
    lemma_lookup_in_database(records, key, i);
}

/// Where exactly one record was put under a key, and the hash of the key is
/// not zero, the first lookup under the key gives the value of that record.
pub proof fn lemma_first_lookup_finds_single_value(
    records: Seq<Record>,
    key: Seq<u8>,
    value: Seq<u8>,
)
    requires
        buildable(records),
        spec_hash(key) != 0,
        values_of(records, key) == seq![value],
    ensures
        lookup(database_of(records), key, 0) == Ok::<Seq<u8>, Error>(value),
{
    lemma_lookup_in_database(records, key, 0);
}

/// The lookups under a key, taken one after the other up to the first that
/// fails, give exactly the values that were put under the key, in the order
/// in which they were put. This holds of every key whose hash is not zero.
pub proof fn lemma_lookups_give_all_values(records: Seq<Record>, key: Seq<u8>)
    requires
        buildable(records),
        spec_hash(key) != 0,
    ensures
        values_from(database_of(records), key, 0) == values_of(records, key),
{
    lemma_lookup_in_database(records, key, 0);
    assert forall|i: u32| #[trigger]
        lookup(database_of(records), key, i) == nth_value(
            values_of(records, key),
            i as int,
        ) by {
        lemma_lookup_in_database(records, key, i);
    }
    lemma_values_from(database_of(records), key, values_of(records, key), 0);
    assert(values_of(records, key).skip(0) =~= values_of(records, key));
}

/// A lookup under a key that no record was put under fails with the error
/// of a key that is not there: it never gives a value.
pub proof fn lemma_absent_key_is_not_found(records: Seq<Record>, key: Seq<u8>, i: u32)
    requires
        buildable(records),
        forall|k: int| 0 <= k < records.len() ==> (#[trigger] records[k]).0 != key,
    ensures
        lookup(database_of(records), key, i) == Err::<Seq<u8>, Error>(Error::KeyNotInCDB),
{
    lemma_lookup_in_database(records, key, i);
    lemma_no_record_no_value(records, key);
}

/// The header of a database that was built from nothing counts as many
/// records as were put.
pub proof fn lemma_len_is_number_of_puts(records: Seq<Record>)
    requires
        buildable(records),
    ensures
        record_count(database_of(records)) == records.len(),
{
    lemma_database_holds_records(records);
    lemma_finished_header(built_bytes(records), built_buckets(records));
}

/// An iteration over a database that was built from nothing gives exactly
/// the records that were put, in the order in which they were put: as many
/// as the header counts.
pub proof fn lemma_iteration_gives_records(records: Seq<Record>)
    requires
        buildable(records),
    ensures
        all_records(database_of(records)) == records,
        all_records(database_of(records)).len() == record_count(database_of(records)),
{
    let data = database_of(records);
    let end = built_bytes(records).len() as int;
    lemma_database_holds_records(records);
    lemma_finished_header(built_bytes(records), built_buckets(records));
    lemma_records_from(data, blank_header(), records, end, 0);
    lemma_records_from_end(data, end, end);
    assert(records.take(0) =~= Seq::<Record>::empty());
    assert(built_bytes(records.take(0)).len() == HEADER_SIZE);
    assert(all_records(data) == records_from(data, end, HEADER_SIZE as int));
    assert(records.skip(0) + Seq::<Record>::empty() =~= records);
}

} // verus!
