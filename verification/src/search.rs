//! What a lookup returns on bytes that hold a hash table: the search through
//! the bytes follows the search through the table.
use crate::helpers::spec_hash;
use crate::image::{
    directory, finished, lemma_finished_layout, lemma_slots_before_grows, lemma_tables_before,
    slots_before, tables_fit,
};
use crate::layout::{
    bucket_of, header_entries, home_slot, key_at, lookup, pair_at, probe, value_at, values_from,
    wrap, BUCKETS, HEADER_SIZE,
};
use crate::probing::{
    lemma_fill_scan, lemma_positions_with_len, lemma_scan_zero, positions_with, scan,
};
use crate::tables::{lemma_fill_len, lemma_home_slot_in_table, table_of, Slot};
use crate::types::Error;
use vstd::multiset::Multiset;
use vstd::prelude::*;

verus! {

/// The values of the records at `positions` whose key is `key`, in the
/// order of `positions`.
pub open spec fn values_at(data: Seq<u8>, positions: Seq<u32>, key: Seq<u8>) -> Seq<Seq<u8>>
    decreases positions.len(),
{
    if positions.len() == 0 {
        Seq::empty()
    } else if key_at(data, positions.last() as int) == key {
        values_at(data, positions.drop_last(), key).push(value_at(data, positions.last() as int))
    } else {
        values_at(data, positions.drop_last(), key)
    }
}

/// The `i`th of `values`, or the error of a key that is not there.
pub open spec fn nth_value(values: Seq<Seq<u8>>, i: int) -> Result<Seq<u8>, Error> {
    if 0 <= i < values.len() {
        Ok(values[i])
    } else {
        Err(Error::KeyNotInCDB)
    }
}

/// The values at a longer run of positions are those at its parts.
pub proof fn lemma_values_at_add(data: Seq<u8>, a: Seq<u32>, b: Seq<u32>, key: Seq<u8>)
    ensures
        values_at(data, a + b, key) == values_at(data, a, key) + values_at(data, b, key),
    decreases b.len(),
{
    if b.len() == 0 {
        assert(a + b =~= a);
        assert(values_at(data, a, key) + values_at(data, b, key) =~= values_at(data, a, key));
    } else {
        lemma_values_at_add(data, a, b.drop_last(), key);
        assert((a + b).drop_last() =~= a + b.drop_last());
        assert((a + b).last() == b.last());
        assert(values_at(data, a + b, key) =~= values_at(data, a, key) + values_at(
            data,
            b,
            key,
        ));
    }
}

/// There are no more values than positions.
pub proof fn lemma_values_at_len(data: Seq<u8>, positions: Seq<u32>, key: Seq<u8>)
    ensures
        values_at(data, positions, key).len() <= positions.len(),
    decreases positions.len(),
{
    if positions.len() > 0 {
        lemma_values_at_len(data, positions.drop_last(), key);
    }
}

/// On bytes that hold `table` from byte `start` on, the search through the
/// bytes returns the value that the search through the table leads to: of
/// the records at the positions that it gathers, and whose key is `key`,
/// the one after `skip` others.
pub proof fn lemma_probe_follows_scan(
    data: Seq<u8>,
    key: Seq<u8>,
    table: Seq<Slot>,
    start: int,
    home: int,
    j: int,
    skip: int,
)
    requires
        0 <= start,
        start + 8 * table.len() <= data.len(),
        forall|s: int| 0 <= s < table.len() ==> #[trigger] pair_at(data, start + 8 * s) == table[s],
        0 <= home < table.len(),
        0 <= j <= table.len(),
        0 <= skip,
        forall|t: int|
            0 <= t < scan(table, home, j, spec_hash(key)).len() ==> (#[trigger] scan(
                table,
                home,
                j,
                spec_hash(key),
            )[t]) + 8 <= data.len(),
    ensures
        probe(data, key, start, table.len() as int, home, j, skip) == nth_value(
            values_at(data, scan(table, home, j, spec_hash(key)), key),
            skip,
        ),
    decreases table.len() - j,
{
    let m = table.len() as int;
    let h = spec_hash(key);
    if j < m {
        let x = wrap(home + j, m);
        assert(pair_at(data, start + 8 * x) == table[x]);
        let found = scan(table, home, j, h);
        let rest = scan(table, home, j + 1, h);
        if table[x].0 != 0 {
            if table[x].0 == h {
                let at = table[x].1;
                assert(found == seq![at] + rest);
                assert(found[0] == at);
                assert forall|t: int| 0 <= t < rest.len() implies (#[trigger] rest[t]) + 8
                    <= data.len() by {
                    assert(found[t + 1] == rest[t]);
                }
                lemma_values_at_add(data, seq![at], rest, key);
                assert(seq![at].drop_last() =~= Seq::<u32>::empty());
                assert(seq![at].last() == at);
                assert(values_at(data, Seq::<u32>::empty(), key) =~= Seq::<Seq<u8>>::empty());
                if key_at(data, at as int) == key {
                    assert(values_at(data, seq![at], key) =~= seq![value_at(data, at as int)]);
                    if skip > 0 {
                        lemma_probe_follows_scan(data, key, table, start, home, j + 1, skip - 1);
                    }
                } else {
                    assert(values_at(data, seq![at], key) =~= Seq::<Seq<u8>>::empty());
                    lemma_probe_follows_scan(data, key, table, start, home, j + 1, skip);
                    assert(values_at(data, found, key) =~= values_at(data, rest, key));
                }
            } else {
                lemma_probe_follows_scan(data, key, table, start, home, j + 1, skip);
            }
        }
    }
}

/// What a lookup gives on a finished database, whatever its bucket lists
/// held: of the records at the positions that the bucket list of the key
/// holds under the hash of the key, and whose key is the key, the values in
/// the order of the list. Under a key whose hash is zero it gives the error
/// of a key that is not there.
pub proof fn lemma_lookup_follows_list(
    bytes: Seq<u8>,
    lists: Seq<Seq<Slot>>,
    key: Seq<u8>,
    occurrence: u32,
)
    requires
        bytes.len() >= HEADER_SIZE,
        lists.len() == BUCKETS,
        tables_fit(bytes, lists),
        forall|t: int|
            0 <= t < positions_with(lists[bucket_of(spec_hash(key))], spec_hash(key)).len() ==> (
            #[trigger] positions_with(lists[bucket_of(spec_hash(key))], spec_hash(key))[t]) + 8
                <= finished(bytes, lists).len(),
    ensures
        lookup(finished(bytes, lists), key, occurrence) == if spec_hash(key) != 0 {
            nth_value(
                values_at(
                    finished(bytes, lists),
                    positions_with(lists[bucket_of(spec_hash(key))], spec_hash(key)),
                    key,
                ),
                occurrence as int,
            )
        } else {
            Err(Error::KeyNotInCDB)
        },
{
    let data = finished(bytes, lists);
    let h = spec_hash(key);
    let b = bucket_of(h);
    let list = lists[b];
    let found = positions_with(list, h);
    lemma_finished_layout(bytes, lists);
    lemma_slots_before_grows(lists, 0, b);
    lemma_slots_before_grows(lists, b + 1, BUCKETS as int);
    lemma_values_at_len(data, found, key);
    lemma_positions_with_len(list, h);
    let start = bytes.len() + 8 * slots_before(lists, b);
    let nslots = 2 * list.len();
    assert(header_entries(data)[b] == directory(bytes.len() as int, lists)[b]);
    assert(header_entries(data)[b] == (start as u32, nslots as u32));
    if nslots > occurrence {
        let table = table_of(list);
        let home = home_slot(h, nslots as int);
        lemma_home_slot_in_table(h, nslots as int);
        lemma_fill_len(list, nslots);
        assert forall|s: int| 0 <= s < table.len() implies #[trigger] pair_at(data, start + 8 * s)
            == table[s] by {
            lemma_tables_before(lists, b, BUCKETS as int, s);
            assert(start + 8 * s == bytes.len() + 8 * (slots_before(lists, b) + s));
        }
        if h != 0 {
            lemma_fill_scan(list, nslots, h);
        } else {
            lemma_scan_zero(table, home, 0);
        }
        lemma_probe_follows_scan(data, key, table, start, home, 0, occurrence as int);
    }
}

/// Where each lookup under a key gives the value at its place in a list of
/// values, the lookups from the `i`th on give the list from the `i`th on.
pub proof fn lemma_values_from(data: Seq<u8>, key: Seq<u8>, values: Seq<Seq<u8>>, i: u32)
    requires
        forall|j: u32| #[trigger] lookup(data, key, j) == nth_value(values, j as int),
        i <= values.len() < u32::MAX,
    ensures
        values_from(data, key, i) == values.skip(i as int),
    decreases values.len() - i,
{
    assert(lookup(data, key, i) == nth_value(values, i as int));
    if i < values.len() {
        lemma_values_from(data, key, values, (i + 1) as u32);
        assert(values.skip(i as int) =~= seq![values[i as int]] + values.skip(i + 1));
    } else {
        assert(values.skip(i as int) =~= Seq::<Seq<u8>>::empty());
    }
}

} // verus!
