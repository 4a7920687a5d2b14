//! What holds of a database that was built from nothing, opened again as a
//! writer, and given more records: the writer starts from the bucket lists
//! that the first writer had, so that what is read afterwards is what the
//! two writers put, in the order in which they put it.
use crate::helpers::spec_hash;
use crate::history::{
    buildable, built_buckets, built_bytes, bytes_after, database_of, hash_positions,
    holds_after, lemma_built_lists_in_order, lemma_bytes_after_grow, lemma_empty_slots,
    lemma_list_gains_positions, lemma_lists_after_len, lemma_lists_after_slots,
    lemma_lists_after_sorted, lemma_lists_after_without_zero, lemma_positions_give_values,
    lemma_puts_in_two_runs, lemma_records_from, lists_after, sorted_by_bucket, values_of,
    without_zero,
};
use crate::image::{
    blank_header, empty_buckets, finished, lemma_finished_header, lemma_finished_layout,
    lemma_finished_whatever_header, lemma_slots_before_grows, lemma_tables_len, regroup,
    reopened_bytes, reopened_lists, tables_before, tables_fit, trailing_slots,
};
use crate::laws::lemma_iteration_gives_records;
use crate::layout::{
    all_records, bucket_of, lemma_records_from_end, lookup, record_count, records_from,
    table_start, Record, BUCKETS, HEADER_SIZE,
};
use crate::ordering::{
    ascending, in_order, in_strict_order, lemma_positions_with_in_order, lemma_regroup,
    lemma_same_items_same_list, strictly_ascending,
};
use crate::probing::{
    lemma_fill_holds_entries, lemma_fill_keeps_entries, lemma_fill_slot,
    lemma_positions_with_add, lemma_positions_with_count, lemma_positions_with_none,
    positions_with,
};
use crate::search::{lemma_lookup_follows_list, lemma_values_at_add, nth_value};
use crate::tables::{lemma_fill_len, table_of, Slot};
use vstd::prelude::*;

verus! {

/// Whether the writer that a reader of `data` turns into can put `more` and
/// then be finalized.
pub open spec fn extendable(data: Seq<u8>, more: Seq<Record>) -> bool {
    tables_fit(
        bytes_after(reopened_bytes(data), more),
        lists_after(reopened_bytes(data), reopened_lists(data), more),
    )
}

/// The finished database of the writer that a reader of `data` turns into,
/// once it has put `more`.
pub open spec fn extended(data: Seq<u8>, more: Seq<Record>) -> Seq<u8> {
    finished(
        bytes_after(reopened_bytes(data), more),
        lists_after(reopened_bytes(data), reopened_lists(data), more),
    )
}

/// The writer that a built database is opened as starts from the bytes that
/// were built, but for the header, and a database that it is finished as
/// holds the records of both writers behind the header.
proof fn lemma_extended_holds_records(records: Seq<Record>, more: Seq<Record>)
    requires
        buildable(records),
        extendable(database_of(records), more),
    ensures
        reopened_bytes(database_of(records)).len() == built_bytes(records).len(),
        built_bytes(records).len() >= HEADER_SIZE,
        holds_after(extended(database_of(records), more), blank_header(), records),
        holds_after(
            extended(database_of(records), more),
            reopened_bytes(database_of(records)),
            more,
        ),
        table_start(extended(database_of(records), more)) == bytes_after(
            reopened_bytes(database_of(records)),
            more,
        ).len(),
{
    reveal(holds_after);
    let data = database_of(records);
    let start = reopened_bytes(data);
    let lists = lists_after(start, reopened_lists(data), more);
    let bytes = bytes_after(start, more);
    lemma_bytes_after_grow(blank_header(), records, 0);
    lemma_finished_layout(built_bytes(records), built_buckets(records));
    lemma_finished_header(built_bytes(records), built_buckets(records));
    lemma_empty_slots(BUCKETS as int);
    lemma_lists_after_len(blank_header(), empty_buckets(), records);
    lemma_lists_after_slots(blank_header(), empty_buckets(), records);
    assert(start.len() == built_bytes(records).len());
    lemma_bytes_after_grow(start, more, 0);
    assert(more.take(0) =~= Seq::<Record>::empty());
    lemma_finished_layout(bytes, lists);
    lemma_finished_header(bytes, lists);
    lemma_slots_before_grows(lists, 0, BUCKETS as int);
    assert forall|x: int| HEADER_SIZE <= x < built_bytes(records).len() implies #[trigger] extended(
        data,
        more,
    )[x] == built_bytes(records)[x] by {
        assert(bytes[x] == start[x]);
        assert(start[x] == data[x]);
    }
}

/// Among the tables of bucket lists that are sorted by bucket, only the
/// table of the bucket of a hash holds positions under that hash.
pub proof fn lemma_tables_positions(lists: Seq<Seq<Slot>>, k: int, h: u32)
    requires
        lists.len() == BUCKETS,
        sorted_by_bucket(lists),
        0 <= k <= BUCKETS,
        h != 0,
    ensures
        positions_with(tables_before(lists, k), h) == if bucket_of(h) < k {
            positions_with(table_of(lists[bucket_of(h)]), h)
        } else {
            Seq::<u32>::empty()
        },
    decreases k,
{
    if k > 0 {
        let list = lists[k - 1];
        let table = table_of(list);
        lemma_tables_positions(lists, k - 1, h);
        lemma_positions_with_add(tables_before(lists, k - 1), table, h);
        if bucket_of(h) != k - 1 {
            lemma_fill_len(list, 2 * list.len());
            assert forall|s: int| 0 <= s < table.len() implies (#[trigger] table[s]).0 != h by {
                if table[s].0 == h {
                    lemma_fill_holds_entries(list, 2 * list.len(), s);
                    let i = choose|i: int| 0 <= i < list.len() && list[i] == table[s];
                    assert(bucket_of(lists[k - 1][i].0) == k - 1);
                }
            }
            lemma_positions_with_none(table, h);
            assert(positions_with(tables_before(lists, k - 1), h) + Seq::<u32>::empty()
                =~= positions_with(tables_before(lists, k - 1), h));
        } else {
            assert(Seq::<u32>::empty() + positions_with(table, h) =~= positions_with(table, h));
        }
    }
}

/// Behind the bytes of the writer, a finished database holds the slots of
/// all tables and nothing else.
pub proof fn lemma_trailing_slots_are_tables(bytes: Seq<u8>, lists: Seq<Seq<Slot>>)
    requires
        bytes.len() >= HEADER_SIZE,
        tables_fit(bytes, lists),
    ensures
        trailing_slots(finished(bytes, lists), bytes.len() as int) == tables_before(
            lists,
            BUCKETS as int,
        ),
{
    lemma_finished_layout(bytes, lists);
    lemma_tables_len(lists, BUCKETS as int);
    assert(trailing_slots(finished(bytes, lists), bytes.len() as int) =~= tables_before(
        lists,
        BUCKETS as int,
    ));
}

/// A taken entry lies as often in the tables of a built database as in the
/// bucket list of its hash, where its hash is not zero.
proof fn lemma_tables_keep_entries(records: Seq<Record>, entry: Slot)
    requires
        buildable(records),
        entry.0 != 0,
    ensures
        tables_before(built_buckets(records), BUCKETS as int).to_multiset().count(entry)
            == built_buckets(records)[bucket_of(entry.0)].to_multiset().count(entry),
{
    let lists = built_buckets(records);
    let list = lists[bucket_of(entry.0)];
    assert(sorted_by_bucket(empty_buckets()));
    lemma_lists_after_sorted(blank_header(), empty_buckets(), records);
    lemma_tables_positions(lists, BUCKETS as int, entry.0);
    lemma_positions_with_count(tables_before(lists, BUCKETS as int), entry.0, entry.1);
    lemma_positions_with_count(table_of(list), entry.0, entry.1);
    lemma_fill_keeps_entries(list, 2 * list.len(), entry);
}

/// The bucket lists of a built database that is opened again hold, under
/// each hash that is not zero, the positions that the bucket lists of the
/// first writer held, in the same order.
pub proof fn lemma_reopened_positions(records: Seq<Record>, h: u32)
    requires
        buildable(records),
        h != 0,
    ensures
        reopened_lists(database_of(records)).len() == BUCKETS,
        positions_with(reopened_lists(database_of(records))[bucket_of(h)], h) == positions_with(
            built_buckets(records)[bucket_of(h)],
            h,
        ),
{
    let bytes = built_bytes(records);
    let lists = built_buckets(records);
    let slots = tables_before(lists, BUCKETS as int);
    let b = bucket_of(h);
    let kept = positions_with(regroup(slots)[b], h);
    let put = positions_with(lists[b], h);
    lemma_bytes_after_grow(blank_header(), records, 0);
    lemma_finished_header(bytes, lists);
    lemma_trailing_slots_are_tables(bytes, lists);
    lemma_slots_before_grows(lists, 0, BUCKETS as int);
    lemma_built_lists_in_order(records);
    lemma_regroup(slots, (h, 0u32));
    lemma_positions_with_in_order(regroup(slots)[b], h);
    lemma_positions_with_in_order(lists[b], h);
    assert forall|position: u32| kept.to_multiset().count(position) == put.to_multiset().count(
        position,
    ) by {
        broadcast use vstd::seq_lib::group_to_multiset_ensures;

        lemma_positions_with_count(regroup(slots)[b], h, position);
        lemma_positions_with_count(lists[b], h, position);
        lemma_regroup(slots, (h, position));
        if position != 0 {
            lemma_tables_keep_entries(records, (h, position));
        } else {
            if lists[b].contains((h, position)) {
                let i = choose|i: int| 0 <= i < lists[b].len() && lists[b][i] == (h, position);
                assert(HEADER_SIZE <= lists[b][i].1);
            }
            assert(lists[b].to_multiset().count((h, position)) == 0);
        }
    }
    assert(kept.to_multiset() =~= put.to_multiset());
    lemma_same_items_same_list(kept, put, |p: u32| p as int);
}

/// Whether one of the first `k` bucket lists holds the entry.
pub open spec fn listed(lists: Seq<Seq<Slot>>, k: int, entry: Slot) -> bool {
    exists|c: int| 0 <= c < k && (#[trigger] lists[c]).contains(entry)
}

/// Every slot of the tables is empty as it was made or holds an entry of
/// one of the bucket lists.
pub proof fn lemma_tables_slot(lists: Seq<Seq<Slot>>, k: int, i: int)
    requires
        0 <= k,
        0 <= i < tables_before(lists, k).len(),
    ensures
        tables_before(lists, k)[i] == (0u32, 0u32) || listed(lists, k, tables_before(lists, k)[i]),
    decreases k,
{
    if k > 0 {
        let front = tables_before(lists, k - 1);
        let list = lists[k - 1];
        lemma_fill_len(list, 2 * list.len());
        if i < front.len() {
            lemma_tables_slot(lists, k - 1, i);
            if front[i] != (0u32, 0u32) {
                let c = choose|c: int| 0 <= c < k - 1 && (#[trigger] lists[c]).contains(front[i]);
                assert(lists[c].contains(tables_before(lists, k)[i]));
            }
        } else {
            lemma_fill_slot(list, 2 * list.len(), i - front.len());
            assert(tables_before(lists, k)[i] == table_of(list)[i - front.len()]);
            if table_of(list)[i - front.len()] != (0u32, 0u32) {
                assert(lists[k - 1].contains(tables_before(lists, k)[i]));
            }
        }
    }
}

/// An iteration over a database that was opened again and given more
/// records gives the records that were there, and then those that were
/// added, each in the order in which they were put.
pub proof fn lemma_iteration_after_reopening(records: Seq<Record>, more: Seq<Record>)
    requires
        buildable(records),
        extendable(database_of(records), more),
    ensures
        all_records(extended(database_of(records), more)) == records + more,
{
    let data = database_of(records);
    let start = reopened_bytes(data);
    let whole = extended(data, more);
    let middle = built_bytes(records).len() as int;
    let end = bytes_after(start, more).len() as int;
    lemma_extended_holds_records(records, more);
    lemma_bytes_after_grow(start, more, 0);
    lemma_records_from(whole, blank_header(), records, end, 0);
    lemma_records_from(whole, start, more, end, 0);
    lemma_records_from_end(whole, end, end);
    assert(records.take(0) =~= Seq::<Record>::empty());
    assert(more.take(0) =~= Seq::<Record>::empty());
    assert(built_bytes(records.take(0)).len() == HEADER_SIZE);
    assert(bytes_after(start, more.take(0)).len() == middle);
    assert(all_records(whole) == records_from(whole, end, HEADER_SIZE as int));
    assert(records_from(whole, end, middle) == more.skip(0) + Seq::<Record>::empty());
    assert(records_from(whole, end, HEADER_SIZE as int) == records.skip(0) + records_from(
        whole,
        end,
        middle,
    ));
    assert(records.skip(0) =~= records);
    assert(more.skip(0) + Seq::<Record>::empty() =~= more);
}

/// Lookups on a database that was opened again and given more records give,
/// under a key whose hash is not zero, the values that were there under the
/// key and then the values that were added under it, each in the order in
/// which they were put; after the last of these they fail with the error of
/// a key that is not there.
pub proof fn lemma_lookup_after_reopening(
    records: Seq<Record>,
    more: Seq<Record>,
    key: Seq<u8>,
    i: u32,
)
    requires
        buildable(records),
        extendable(database_of(records), more),
        spec_hash(key) != 0,
    ensures
        lookup(extended(database_of(records), more), key, i) == nth_value(
            values_of(records, key) + values_of(more, key),
            i as int,
        ),
{
    let data = database_of(records);
    let start = reopened_bytes(data);
    let lists = reopened_lists(data);
    let bytes = bytes_after(start, more);
    let whole = extended(data, more);
    let h = spec_hash(key);
    let b = bucket_of(h);
    let put = positions_with(built_buckets(records)[b], h);
    let added = hash_positions(start, more, h);
    lemma_extended_holds_records(records, more);
    lemma_reopened_positions(records, h);
    lemma_lists_after_len(start, lists, more);
    lemma_bytes_after_grow(start, more, 0);
    lemma_list_gains_positions(start, lists, more, h);
    lemma_list_gains_positions(blank_header(), empty_buckets(), records, h);
    assert(positions_with(empty_buckets()[b], h) =~= Seq::<u32>::empty());
    assert(put =~= hash_positions(blank_header(), records, h));
    lemma_positions_give_values(whole, blank_header(), records, key);
    lemma_positions_give_values(whole, start, more, key);
    lemma_values_at_add(whole, put, added, key);
    assert forall|t: int| 0 <= t < (put + added).len() implies (#[trigger] (put + added)[t]) + 8
        <= whole.len() by {
        if t >= put.len() {
            assert((put + added)[t] == added[t - put.len()]);
        }
    }
    lemma_lookup_follows_list(bytes, lists_after(start, lists, more), key, i);
}

/// The writer that a built database is opened as has, for each bucket, the
/// list of the writer that built it: the same entries in the order in which
/// they were put. For the first bucket this holds where no key of a record
/// has the hash zero, which is of that bucket.
pub proof fn lemma_reopened_list(records: Seq<Record>, b: int)
    requires
        buildable(records),
        0 <= b < BUCKETS,
        b == 0 ==> forall|i: int|
            0 <= i < records.len() ==> spec_hash((#[trigger] records[i]).0) != 0,
    ensures
        reopened_lists(database_of(records)).len() == BUCKETS,
        built_buckets(records).len() == BUCKETS,
        reopened_lists(database_of(records))[b] == built_buckets(records)[b],
{
    broadcast use vstd::seq_lib::group_to_multiset_ensures;

    let bytes = built_bytes(records);
    let lists = built_buckets(records);
    let slots = tables_before(lists, BUCKETS as int);
    lemma_bytes_after_grow(blank_header(), records, 0);
    lemma_finished_header(bytes, lists);
    lemma_trailing_slots_are_tables(bytes, lists);
    lemma_slots_before_grows(lists, 0, BUCKETS as int);
    lemma_built_lists_in_order(records);
    assert(sorted_by_bucket(empty_buckets()));
    lemma_lists_after_sorted(blank_header(), empty_buckets(), records);
    lemma_regroup(slots, (0u32, 0u32));
    {
        let kept = regroup(slots)[b];
        let put = lists[b];
        assert forall|entry: Slot| kept.to_multiset().count(entry) == put.to_multiset().count(
            entry,
        ) by {
            lemma_regroup(slots, entry);
            if bucket_of(entry.0) != b {
                if kept.contains(entry) {
                    let i = choose|i: int| 0 <= i < kept.len() && kept[i] == entry;
                    assert(bucket_of(regroup(slots)[b][i].0) == b);
                }
                if put.contains(entry) {
                    let i = choose|i: int| 0 <= i < put.len() && put[i] == entry;
                    assert(bucket_of(lists[b][i].0) == b);
                }
                assert(kept.to_multiset().count(entry) == 0);
                assert(put.to_multiset().count(entry) == 0);
            } else if entry.1 == 0 {
                if put.contains(entry) {
                    let i = choose|i: int| 0 <= i < put.len() && put[i] == entry;
                    assert(HEADER_SIZE <= lists[b][i].1);
                }
                assert(put.to_multiset().count(entry) == 0);
            } else if entry.0 != 0 {
                lemma_tables_keep_entries(records, entry);
            } else {
                assert(b == 0);
                assert(without_zero(empty_buckets()));
                lemma_lists_after_without_zero(blank_header(), empty_buckets(), records);
                if slots.contains(entry) {
                    let i = choose|i: int| 0 <= i < slots.len() && slots[i] == entry;
                    lemma_tables_slot(lists, BUCKETS as int, i);
                    assert(listed(lists, BUCKETS as int, entry));
                    let c = choose|c: int|
                        0 <= c < BUCKETS && (#[trigger] lists[c]).contains(entry);
                    let t = choose|t: int| 0 <= t < lists[c].len() && lists[c][t] == entry;
                    assert(lists[c][t].0 != 0);
                }
                if put.contains(entry) {
                    let i = choose|i: int| 0 <= i < put.len() && put[i] == entry;
                    assert(lists[b][i].0 != 0);
                }
                assert(slots.to_multiset().count(entry) == 0);
                assert(put.to_multiset().count(entry) == 0);
            }
        }
        assert(kept.to_multiset() =~= put.to_multiset());
        let position = |e: Slot| e.1 as int;
        assert(in_order(kept));
        assert(in_strict_order(put));
        assert(ascending(kept, position)) by {
            assert forall|i: int, j: int| 0 <= i < j < kept.len() implies position(kept[i])
                <= position(kept[j]) by {
                assert(kept[i].1 <= kept[j].1);
            }
        }
        assert(strictly_ascending(put, position)) by {
            assert forall|i: int, j: int| 0 <= i < j < put.len() implies position(put[i])
                < position(put[j]) by {
                assert(put[i].1 < put[j].1);
            }
        }
        lemma_same_items_same_list(kept, put, position);
    }
}

/// The writer that a built database is opened as has the bucket lists of
/// the writer that built it, where no key of a record has the hash zero.
pub proof fn lemma_reopened_lists(records: Seq<Record>)
    requires
        buildable(records),
        forall|i: int| 0 <= i < records.len() ==> spec_hash((#[trigger] records[i]).0) != 0,
    ensures
        reopened_lists(database_of(records)) == built_buckets(records),
        reopened_lists(database_of(records)) == lists_after(
            blank_header(),
            empty_buckets(),
            all_records(database_of(records)),
        ),
{
    let kept = reopened_lists(database_of(records));
    let put = built_buckets(records);
    lemma_iteration_gives_records(records);
    lemma_reopened_list(records, 0);
    assert forall|b: int| 0 <= b < BUCKETS implies kept[b] == put[b] by {
        lemma_reopened_list(records, b);
    }
    assert(kept =~= put);
}

/// The header of a database that was opened again and given more records
/// counts the records that were there and those that were added, where no
/// key of a record that was there has the hash zero.
pub proof fn lemma_len_after_reopening(records: Seq<Record>, more: Seq<Record>)
    requires
        buildable(records),
        extendable(database_of(records), more),
        forall|i: int| 0 <= i < records.len() ==> spec_hash((#[trigger] records[i]).0) != 0,
    ensures
        record_count(extended(database_of(records), more)) == records.len() + more.len(),
{
    let data = database_of(records);
    let start = reopened_bytes(data);
    let lists = built_buckets(records);
    lemma_reopened_lists(records);
    lemma_extended_holds_records(records, more);
    lemma_bytes_after_grow(start, more, 0);
    lemma_finished_header(bytes_after(start, more), lists_after(start, lists, more));
    lemma_lists_after_len(blank_header(), empty_buckets(), records);
    lemma_lists_after_slots(start, lists, more);
    lemma_empty_slots(BUCKETS as int);
    lemma_lists_after_slots(blank_header(), empty_buckets(), records);
}

/// A database that was opened again and given more records is the database
/// that one writer builds from the records that were there and those that
/// were added, where no key of a record that was there has the hash zero.
pub proof fn lemma_reopening_builds_the_same(records: Seq<Record>, more: Seq<Record>)
    requires
        buildable(records),
        extendable(database_of(records), more),
        forall|i: int| 0 <= i < records.len() ==> spec_hash((#[trigger] records[i]).0) != 0,
    ensures
        buildable(records + more),
        extended(database_of(records), more) == database_of(records + more),
{
    reveal(holds_after);
    let data = database_of(records);
    let start = reopened_bytes(data);
    let bytes = bytes_after(start, more);
    let all = records + more;
    lemma_reopened_lists(records);
    lemma_extended_holds_records(records, more);
    lemma_puts_in_two_runs(blank_header(), empty_buckets(), records, start, more);
    lemma_bytes_after_grow(start, more, 0);
    assert(more.take(0) =~= Seq::<Record>::empty());
    assert(all.take(records.len() as int) =~= records);
    lemma_bytes_after_grow(blank_header(), all, records.len() as int);
    assert forall|x: int| HEADER_SIZE <= x < bytes.len() implies bytes[x] == built_bytes(
        all,
    )[x] by {
        if x < start.len() {
            assert(bytes[x] == start[x]);
            assert(extended(data, more)[x] == built_bytes(records)[x]);
            lemma_finished_layout(bytes, lists_after(start, built_buckets(records), more));
            assert(extended(data, more)[x] == bytes[x]);
            assert(built_bytes(all)[x] == built_bytes(records)[x]);
        }
    }
    lemma_finished_whatever_header(bytes, built_bytes(all), built_buckets(all));
}

} // verus!
