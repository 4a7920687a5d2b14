//! The bytes and bucket lists that a run of puts leaves, and how the records
//! read back from them.
use crate::helpers::{lemma_unpack_pack, spec_hash, spec_pack};
use crate::image::{
    add_entry, blank_header, empty_buckets, finished, record_bytes, slots_before, tables_fit,
};
use crate::layout::{
    bucket_of, key_at, lemma_records_from_step, record_end, records_from, value_at, word_at,
    Record, BUCKETS, HEADER_SIZE,
};
use crate::ordering::in_strict_order;
use crate::probing::positions_with;
use crate::search::values_at;
use crate::tables::Slot;
use vstd::prelude::*;

verus! {

/// The bytes of a writer that started with the bytes `start` and has put
/// `records`, one after the other.
pub open spec fn bytes_after(start: Seq<u8>, records: Seq<Record>) -> Seq<u8>
    decreases records.len(),
{
    if records.len() == 0 {
        start
    } else {
        bytes_after(start, records.drop_last()) + record_bytes(records.last().0, records.last().1)
    }
}

/// The bucket lists of a writer that started with the bytes `start` and the
/// bucket lists `lists`, and has put `records`, one after the other.
pub open spec fn lists_after(start: Seq<u8>, lists: Seq<Seq<Slot>>, records: Seq<Record>) -> Seq<
    Seq<Slot>,
>
    decreases records.len(),
{
    if records.len() == 0 {
        lists
    } else {
        add_entry(
            lists_after(start, lists, records.drop_last()),
            (spec_hash(records.last().0), bytes_after(start, records.drop_last()).len() as u32),
        )
    }
}

/// The bytes of a writer that started from nothing and has put `records`,
/// one after the other.
pub open spec fn built_bytes(records: Seq<Record>) -> Seq<u8> {
    bytes_after(blank_header(), records)
}

/// The bucket lists of a writer that started from nothing and has put
/// `records`, one after the other.
pub open spec fn built_buckets(records: Seq<Record>) -> Seq<Seq<Slot>> {
    lists_after(blank_header(), empty_buckets(), records)
}

/// Whether a writer that started from nothing can put `records` and then
/// be finalized: the finished database stays within what 32-bit positions
/// reach.
pub open spec fn buildable(records: Seq<Record>) -> bool {
    tables_fit(built_bytes(records), built_buckets(records))
}

/// The finished database that holds `records`, put in this order.
pub open spec fn database_of(records: Seq<Record>) -> Seq<u8> {
    finished(built_bytes(records), built_buckets(records))
}

/// The values of the records under `key`, in the order of `records`.
pub open spec fn values_of(records: Seq<Record>, key: Seq<u8>) -> Seq<Seq<u8>>
    decreases records.len(),
{
    if records.len() == 0 {
        Seq::empty()
    } else if records.last().0 == key {
        values_of(records.drop_last(), key).push(records.last().1)
    } else {
        values_of(records.drop_last(), key)
    }
}

/// The bytes that were there after the first puts stay as they are while
/// more records are put.
pub proof fn lemma_bytes_after_grow(start: Seq<u8>, records: Seq<Record>, i: int)
    requires
        0 <= i <= records.len(),
    ensures
        start.len() <= bytes_after(start, records.take(i)).len() <= bytes_after(
            start,
            records,
        ).len(),
        forall|x: int|
            0 <= x < bytes_after(start, records.take(i)).len() ==> #[trigger] bytes_after(
                start,
                records,
            )[x] == bytes_after(start, records.take(i))[x],
    decreases records.len(),
{
    if i == records.len() {
        assert(records.take(i) == records);
        if records.len() > 0 {
            lemma_bytes_after_grow(start, records.drop_last(), 0);
            assert(records.drop_last().take(0) =~= records.take(0));
        }
    } else {
        assert(records.drop_last().take(i) == records.take(i));
        lemma_bytes_after_grow(start, records.drop_last(), i);
    }
}

/// Puts keep the number of bucket lists.
pub proof fn lemma_lists_after_len(start: Seq<u8>, lists: Seq<Seq<Slot>>, records: Seq<Record>)
    requires
        lists.len() == BUCKETS,
    ensures
        lists_after(start, lists, records).len() == BUCKETS,
    decreases records.len(),
{
    if records.len() > 0 {
        lemma_lists_after_len(start, lists, records.drop_last());
    }
}

/// One more entry takes two more slots, in the table of its bucket.
pub proof fn lemma_add_entry_slots(buckets: Seq<Seq<Slot>>, entry: Slot, k: int)
    requires
        buckets.len() == BUCKETS,
        0 <= k <= BUCKETS,
    ensures
        slots_before(add_entry(buckets, entry), k) == slots_before(buckets, k) + if bucket_of(
            entry.0,
        ) < k {
            2int
        } else {
            0int
        },
    decreases k,
{
    if k > 0 {
        lemma_add_entry_slots(buckets, entry, k - 1);
    }
}

/// Each put takes two more slots in the tables.
pub proof fn lemma_lists_after_slots(
    start: Seq<u8>,
    lists: Seq<Seq<Slot>>,
    records: Seq<Record>,
)
    requires
        lists.len() == BUCKETS,
    ensures
        slots_before(lists_after(start, lists, records), BUCKETS as int) == slots_before(
            lists,
            BUCKETS as int,
        ) + 2 * records.len(),
    decreases records.len(),
{
    if records.len() > 0 {
        lemma_lists_after_slots(start, lists, records.drop_last());
        lemma_lists_after_len(start, lists, records.drop_last());
        lemma_add_entry_slots(
            lists_after(start, lists, records.drop_last()),
            (spec_hash(records.last().0), bytes_after(start, records.drop_last()).len() as u32),
            BUCKETS as int,
        );
    }
}

/// Empty bucket lists take no slots.
pub proof fn lemma_empty_slots(k: int)
    requires
        0 <= k <= BUCKETS,
    ensures
        slots_before(empty_buckets(), k) == 0,
    decreases k,
{
    if k > 0 {
        lemma_empty_slots(k - 1);
    }
}

/// Whether `data` holds, behind the first `start.len()` bytes, the bytes
/// that puts of `records` added to `start`.
#[verifier::opaque]
pub open spec fn holds_after(data: Seq<u8>, start: Seq<u8>, records: Seq<Record>) -> bool {
    &&& bytes_after(start, records).len() <= data.len()
    &&& bytes_after(start, records).len() <= u32::MAX
    &&& forall|x: int|
        start.len() <= x < bytes_after(start, records).len() ==> #[trigger] data[x]
            == bytes_after(start, records)[x]
}

/// A record reads back from the bytes that were written for it: its key,
/// its value, and the place where the next record starts.
pub proof fn lemma_record_bytes_read_back(data: Seq<u8>, at: int, key: Seq<u8>, value: Seq<u8>)
    requires
        0 <= at,
        at + 8 + key.len() + value.len() <= data.len(),
        key.len() <= u32::MAX,
        value.len() <= u32::MAX,
        forall|t: int|
            0 <= t < 8 + key.len() + value.len() ==> #[trigger] data[at + t] == record_bytes(
                key,
                value,
            )[t],
    ensures
        key_at(data, at) == key,
        value_at(data, at) == value,
        record_end(data, at) == at + 8 + key.len() + value.len(),
{
    let klen = key.len() as u32;
    let vlen = value.len() as u32;
    lemma_unpack_pack(klen);
    lemma_unpack_pack(vlen);
    assert(word_at(data, at) == klen) by {
        assert(data[at + 0] == spec_pack(klen)[0]);
        assert(data[at + 1] == spec_pack(klen)[1]);
        assert(data[at + 2] == spec_pack(klen)[2]);
        assert(data[at + 3] == spec_pack(klen)[3]);
    }
    assert(word_at(data, at + 4) == vlen) by {
        assert(data[at + 4] == spec_pack(vlen)[0]);
        assert(data[at + 5] == spec_pack(vlen)[1]);
        assert(data[at + 6] == spec_pack(vlen)[2]);
        assert(data[at + 7] == spec_pack(vlen)[3]);
    }
    assert(key_at(data, at) =~= key) by {
        assert forall|t: int| 0 <= t < key.len() implies data[at + 8 + t] == #[trigger] key[t] by {
            assert(data[at + (8 + t)] == record_bytes(key, value)[8 + t]);
        }
    }
    assert(value_at(data, at) =~= value) by {
        assert forall|t: int| 0 <= t < value.len() implies data[at + 8 + key.len() + t]
            == #[trigger] value[t] by {
            assert(data[at + (8 + key.len() + t)] == record_bytes(key, value)[8 + key.len() + t]);
        }
    }
}

/// The bytes of the `i`th record lie where it was put, in every run of
/// bytes that holds the records.
pub proof fn lemma_record_lies_where_put(
    data: Seq<u8>,
    start: Seq<u8>,
    records: Seq<Record>,
    i: int,
    t: int,
)
    requires
        holds_after(data, start, records),
        0 <= i < records.len(),
        0 <= t < 8 + records[i].0.len() + records[i].1.len(),
    ensures
        start.len() <= bytes_after(start, records.take(i)).len(),
        bytes_after(start, records.take(i + 1)).len() == bytes_after(start, records.take(i)).len()
            + 8 + records[i].0.len() + records[i].1.len(),
        bytes_after(start, records.take(i + 1)).len() <= bytes_after(start, records).len(),
        bytes_after(start, records).len() <= data.len(),
        bytes_after(start, records).len() <= u32::MAX,
        data[bytes_after(start, records.take(i)).len() + t] == record_bytes(
            records[i].0,
            records[i].1,
        )[t],
{
    reveal(holds_after);
    let at = bytes_after(start, records.take(i)).len() as int;
    let upto = bytes_after(start, records.take(i + 1));
    lemma_bytes_after_grow(start, records, i);
    lemma_bytes_after_grow(start, records, i + 1);
    assert(records.take(i + 1).drop_last() == records.take(i));
    assert(records.take(i + 1).last() == records[i]);
    assert(upto == bytes_after(start, records.take(i)) + record_bytes(records[i].0, records[i].1));
    assert(data[at + t] == bytes_after(start, records)[at + t]);
    assert(bytes_after(start, records)[at + t] == upto[at + t]);
}

/// The `i`th record reads back from where it was put: its key, its value,
/// and the place where the next record starts.
pub proof fn lemma_record_reads_back(
    data: Seq<u8>,
    start: Seq<u8>,
    records: Seq<Record>,
    i: int,
)
    requires
        holds_after(data, start, records),
        0 <= i < records.len(),
    ensures
        start.len() <= bytes_after(start, records.take(i)).len(),
        bytes_after(start, records.take(i)).len() + 8 <= bytes_after(
            start,
            records.take(i + 1),
        ).len() <= bytes_after(start, records).len(),
        bytes_after(start, records).len() <= data.len(),
        bytes_after(start, records).len() <= u32::MAX,
        key_at(data, bytes_after(start, records.take(i)).len() as int) == records[i].0,
        value_at(data, bytes_after(start, records.take(i)).len() as int) == records[i].1,
        record_end(data, bytes_after(start, records.take(i)).len() as int) == bytes_after(
            start,
            records.take(i + 1),
        ).len(),
{
    let at = bytes_after(start, records.take(i)).len() as int;
    let key = records[i].0;
    let value = records[i].1;
    lemma_record_lies_where_put(data, start, records, i, 0);
    assert forall|t: int| 0 <= t < 8 + key.len() + value.len() implies #[trigger] data[at + t]
        == record_bytes(key, value)[t] by {
        lemma_record_lies_where_put(data, start, records, i, t);
    }
    lemma_record_bytes_read_back(data, at, key, value);
}

/// The positions at which puts of `records`, after the bytes `start`, put
/// the records whose key has the hash `h`.
pub open spec fn hash_positions(start: Seq<u8>, records: Seq<Record>, h: u32) -> Seq<u32>
    decreases records.len(),
{
    if records.len() == 0 {
        Seq::empty()
    } else if spec_hash(records.last().0) == h {
        hash_positions(start, records.drop_last(), h).push(
            bytes_after(start, records.drop_last()).len() as u32,
        )
    } else {
        hash_positions(start, records.drop_last(), h)
    }
}

/// Puts add to the bucket list of a hash, under that hash, the positions
/// at which they put the records with that hash.
pub proof fn lemma_list_gains_positions(
    start: Seq<u8>,
    lists: Seq<Seq<Slot>>,
    records: Seq<Record>,
    h: u32,
)
    requires
        lists.len() == BUCKETS,
    ensures
        positions_with(lists_after(start, lists, records)[bucket_of(h)], h) == positions_with(
            lists[bucket_of(h)],
            h,
        ) + hash_positions(start, records, h),
    decreases records.len(),
{
    let b = bucket_of(h);
    let held = positions_with(lists[b], h);
    if records.len() == 0 {
        assert(held + hash_positions(start, records, h) =~= held);
    } else {
        let earlier = records.drop_last();
        let entry = (spec_hash(records.last().0), bytes_after(start, earlier).len() as u32);
        lemma_list_gains_positions(start, lists, earlier, h);
        lemma_lists_after_len(start, lists, earlier);
        let list = lists_after(start, lists, earlier)[b];
        if bucket_of(entry.0) == b {
            assert(lists_after(start, lists, records)[b] == list.push(entry));
            assert(list.push(entry).drop_last() == list);
            assert(list.push(entry).last() == entry);
            if entry.0 == h {
                assert((held + hash_positions(start, earlier, h)).push(entry.1) =~= held
                    + hash_positions(start, earlier, h).push(entry.1));
            }
        } else {
            assert(lists_after(start, lists, records)[b] == list);
        }
    }
}

/// Bytes that hold some records hold the first of them too.
pub proof fn lemma_holds_fewer(data: Seq<u8>, start: Seq<u8>, records: Seq<Record>, i: int)
    requires
        holds_after(data, start, records),
        0 <= i <= records.len(),
    ensures
        holds_after(data, start, records.take(i)),
{
    reveal(holds_after);
    lemma_bytes_after_grow(start, records, i);
}

/// The positions at which the records with the hash of a key were put lead
/// to the values that were put under the key, in the order in which they
/// were put.
pub proof fn lemma_positions_give_values(
    data: Seq<u8>,
    start: Seq<u8>,
    records: Seq<Record>,
    key: Seq<u8>,
)
    requires
        holds_after(data, start, records),
    ensures
        values_at(data, hash_positions(start, records, spec_hash(key)), key) == values_of(
            records,
            key,
        ),
        forall|t: int|
            0 <= t < hash_positions(start, records, spec_hash(key)).len() ==> (
            #[trigger] hash_positions(start, records, spec_hash(key))[t]) + 8 <= data.len(),
    decreases records.len(),
{
    let h = spec_hash(key);
    if records.len() > 0 {
        let n = records.len() as int;
        let earlier = records.drop_last();
        assert(earlier == records.take(n - 1));
        lemma_holds_fewer(data, start, records, n - 1);
        lemma_positions_give_values(data, start, earlier, key);
        lemma_record_reads_back(data, start, records, n - 1);
        assert(records.take(n) == records);
        if spec_hash(records.last().0) == h {
            let found = hash_positions(start, earlier, h);
            let at = bytes_after(start, earlier).len() as u32;
            assert(found.push(at).drop_last() == found);
            assert(found.push(at).last() == at);
        }
    }
}

/// There are no more values under a key than records.
pub proof fn lemma_values_of_len(records: Seq<Record>, key: Seq<u8>)
    ensures
        values_of(records, key).len() <= records.len(),
    decreases records.len(),
{
    if records.len() > 0 {
        lemma_values_of_len(records.drop_last(), key);
    }
}

/// Where no record has the key, there is no value under it.
pub proof fn lemma_no_record_no_value(records: Seq<Record>, key: Seq<u8>)
    requires
        forall|k: int| 0 <= k < records.len() ==> (#[trigger] records[k]).0 != key,
    ensures
        values_of(records, key).len() == 0,
    decreases records.len(),
{
    if records.len() > 0 {
        assert(records.last() == records[records.len() - 1]);
        assert forall|k: int| 0 <= k < records.drop_last().len() implies (
        #[trigger] records.drop_last()[k]).0 != key by {
            assert(records.drop_last()[k] == records[k]);
        }
        lemma_no_record_no_value(records.drop_last(), key);
    }
}

/// From where the `i`th record was put, an iteration gives the records from
/// the `i`th on, and then what it gives from the end of the last record on.
pub proof fn lemma_records_from(
    data: Seq<u8>,
    start: Seq<u8>,
    records: Seq<Record>,
    end: int,
    i: int,
)
    requires
        holds_after(data, start, records),
        0 <= i <= records.len(),
        bytes_after(start, records).len() <= end,
    ensures
        records_from(data, end, bytes_after(start, records.take(i)).len() as int) == records.skip(
            i,
        ) + records_from(data, end, bytes_after(start, records).len() as int),
    decreases records.len() - i,
{
    let rest = records_from(data, end, bytes_after(start, records).len() as int);
    let at = bytes_after(start, records.take(i)).len() as int;
    if i < records.len() {
        let next = bytes_after(start, records.take(i + 1)).len() as int;
        let tail = records_from(data, end, next);
        lemma_record_reads_back(data, start, records, i);
        lemma_records_from(data, start, records, end, i + 1);
        lemma_records_from_step(data, end, at);
        assert(records[i] == (key_at(data, at), value_at(data, at)));
        assert(records_from(data, end, at) == seq![records[i]] + tail);
        assert(tail == records.skip(i + 1) + rest);
        assert(records.skip(i) + rest =~= seq![records[i]] + (records.skip(i + 1) + rest));
    } else {
        assert(records.take(i) == records);
        assert(records.skip(i) + rest =~= rest);
    }
}

/// Whether each bucket list holds entries of its own bucket only.
pub open spec fn sorted_by_bucket(lists: Seq<Seq<Slot>>) -> bool {
    forall|b: int, i: int|
        0 <= b < lists.len() && 0 <= i < lists[b].len() ==> bucket_of((#[trigger] lists[b][i]).0)
            == b
}

/// Puts leave each entry in the list of its own bucket.
pub proof fn lemma_lists_after_sorted(start: Seq<u8>, lists: Seq<Seq<Slot>>, records: Seq<Record>)
    requires
        lists.len() == BUCKETS,
        sorted_by_bucket(lists),
    ensures
        sorted_by_bucket(lists_after(start, lists, records)),
        lists_after(start, lists, records).len() == BUCKETS,
    decreases records.len(),
{
    lemma_lists_after_len(start, lists, records);
    if records.len() > 0 {
        lemma_lists_after_sorted(start, lists, records.drop_last());
    }
}

/// Whether no entry of the bucket lists has the hash zero.
pub open spec fn without_zero(lists: Seq<Seq<Slot>>) -> bool {
    forall|b: int, i: int|
        0 <= b < lists.len() && 0 <= i < lists[b].len() ==> (#[trigger] lists[b][i]).0 != 0
}

/// Puts of records whose keys do not have the hash zero add no entry with
/// the hash zero.
pub proof fn lemma_lists_after_without_zero(
    start: Seq<u8>,
    lists: Seq<Seq<Slot>>,
    records: Seq<Record>,
)
    requires
        lists.len() == BUCKETS,
        without_zero(lists),
        forall|i: int| 0 <= i < records.len() ==> spec_hash((#[trigger] records[i]).0) != 0,
    ensures
        without_zero(lists_after(start, lists, records)),
    decreases records.len(),
{
    lemma_lists_after_len(start, lists, records);
    if records.len() > 0 {
        assert(records.last() == records[records.len() - 1]);
        assert forall|i: int| 0 <= i < records.drop_last().len() implies spec_hash(
            (#[trigger] records.drop_last()[i]).0,
        ) != 0 by {
            assert(records.drop_last()[i] == records[i]);
        }
        lemma_lists_after_without_zero(start, lists, records.drop_last());
        lemma_lists_after_len(start, lists, records.drop_last());
    }
}

/// The bucket lists of a writer that started from nothing hold positions
/// behind the header and before the end of the bytes, and in each list the
/// positions rise.
pub proof fn lemma_built_lists_in_order(records: Seq<Record>)
    requires
        built_bytes(records).len() <= u32::MAX,
    ensures
        built_buckets(records).len() == BUCKETS,
        forall|b: int, i: int|
            0 <= b < BUCKETS && 0 <= i < built_buckets(records)[b].len() ==> HEADER_SIZE <= (
            #[trigger] built_buckets(records)[b][i]).1 < built_bytes(records).len(),
        forall|b: int| 0 <= b < BUCKETS ==> in_strict_order(#[trigger] built_buckets(records)[b]),
    decreases records.len(),
{
    lemma_lists_after_len(blank_header(), empty_buckets(), records);
    if records.len() > 0 {
        let earlier = records.drop_last();
        let lists = built_buckets(earlier);
        let at = built_bytes(earlier).len();
        let entry = (spec_hash(records.last().0), at as u32);
        let c = bucket_of(entry.0);
        assert(earlier == records.take(records.len() - 1));
        lemma_bytes_after_grow(blank_header(), records, records.len() - 1);
        lemma_built_lists_in_order(earlier);
        assert(built_buckets(records) == lists.update(c, lists[c].push(entry)));
        assert(at + 8 <= built_bytes(records).len());
        assert forall|b: int, i: int|
            0 <= b < BUCKETS && 0 <= i < built_buckets(records)[b].len() implies HEADER_SIZE <= (
            #[trigger] built_buckets(records)[b][i]).1 < built_bytes(records).len() by {
            if b == c && i == lists[c].len() {
            } else {
                assert(HEADER_SIZE <= lists[b][i].1 < at);
            }
        }
        assert forall|b: int| 0 <= b < BUCKETS implies in_strict_order(
            #[trigger] built_buckets(records)[b],
        ) by {
            let list = built_buckets(records)[b];
            assert(in_strict_order(lists[b]));
            assert forall|i: int, j: int| 0 <= i < j < list.len() implies list[i].1
                < list[j].1 by {
                if b == c && j == lists[c].len() {
                    assert(lists[b][i].1 < at);
                } else {
                    assert(lists[b][i].1 < lists[b][j].1);
                }
            }
        }
    } else {
        assert forall|b: int| 0 <= b < BUCKETS implies in_strict_order(
            #[trigger] built_buckets(records)[b],
        ) by {
            assert(built_buckets(records)[b].len() == 0);
        }
    }
}

/// Puts in two runs leave what the same puts leave in one run: the second
/// run may start from other bytes of the same length, and then leaves its
/// own bytes in front and the same bytes behind them.
pub proof fn lemma_puts_in_two_runs(
    start: Seq<u8>,
    lists: Seq<Seq<Slot>>,
    records: Seq<Record>,
    again: Seq<u8>,
    more: Seq<Record>,
)
    requires
        again.len() == bytes_after(start, records).len(),
    ensures
        bytes_after(again, more).len() == bytes_after(start, records + more).len(),
        forall|x: int|
            again.len() <= x < bytes_after(again, more).len() ==> #[trigger] bytes_after(
                again,
                more,
            )[x] == bytes_after(start, records + more)[x],
        lists_after(again, lists_after(start, lists, records), more) == lists_after(
            start,
            lists,
            records + more,
        ),
    decreases more.len(),
{
    if more.len() == 0 {
        assert(records + more =~= records);
    } else {
        let all = records + more;
        lemma_puts_in_two_runs(start, lists, records, again, more.drop_last());
        assert(all.drop_last() =~= records + more.drop_last());
        assert(all.last() == more.last());
        lemma_bytes_after_grow(again, more.drop_last(), 0);
    }
}

} // verus!
