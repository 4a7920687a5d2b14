//! Why a search through a hash table finds what the writer placed there.
//!
//! The search for a hash walks the table from the home slot of the hash to
//! the first empty slot. The lemmas here show that on a table that was
//! filled entry by entry this walk meets the positions of all entries with
//! that hash, in the order in which they were placed.
use crate::layout::{home_slot, wrap};
use crate::tables::{
    empty_table, fill, first_free, lemma_fill_len, lemma_first_free_range,
    lemma_home_slot_in_table, place, Slot,
};
use vstd::prelude::*;

verus! {

/// The positions that a search for `h` meets from its `j`th probe on: those
/// of the slots with hash `h`, up to the first empty slot.
pub open spec fn scan(table: Seq<Slot>, home: int, j: int, h: u32) -> Seq<u32>
    decreases table.len() - j,
{
    if j >= table.len() {
        Seq::empty()
    } else {
        let slot = table[wrap(home + j, table.len() as int)];
        if slot.0 == 0 {
            Seq::empty()
        } else if slot.0 == h {
            seq![slot.1] + scan(table, home, j + 1, h)
        } else {
            scan(table, home, j + 1, h)
        }
    }
}

/// The positions of the entries with hash `h`, in the order of the list.
pub open spec fn positions_with(entries: Seq<Slot>, h: u32) -> Seq<u32>
    decreases entries.len(),
{
    if entries.len() == 0 {
        Seq::empty()
    } else if entries.last().0 == h {
        positions_with(entries.drop_last(), h).push(entries.last().1)
    } else {
        positions_with(entries.drop_last(), h)
    }
}

/// How many probes after `home` the slot `s` comes.
pub open spec fn distance(home: int, s: int, m: int) -> int {
    if s >= home {
        s - home
    } else {
        s - home + m
    }
}

/// The number of slots among the first `k` that are not empty.
pub open spec fn filled(table: Seq<Slot>, k: int) -> int
    decreases k,
{
    if k <= 0 {
        0
    } else if table[k - 1].0 != 0 {
        filled(table, k - 1) + 1
    } else {
        filled(table, k - 1)
    }
}

/// Whether the slot that lies `j` probes after the home slot of the entry in
/// slot `s` is taken.
pub open spec fn taken_on_the_way(table: Seq<Slot>, s: int, j: int) -> bool {
    table[wrap(home_slot(table[s].0, table.len() as int) + j, table.len() as int)].0 != 0
}

/// Whether no entry lies behind an empty slot: from the home slot of each
/// entry up to the slot that holds it, every slot is taken.
pub open spec fn settled(table: Seq<Slot>) -> bool {
    forall|s: int, j: int|
        0 <= s < table.len() && table[s].0 != 0 && 0 <= j <= distance(
            home_slot(table[s].0, table.len() as int),
            s,
            table.len() as int,
        ) ==> #[trigger] taken_on_the_way(table, s, j)
}

/// Every probe before the first empty slot meets a taken slot.
pub proof fn lemma_first_free_is_first(table: Seq<Slot>, home: int, j: int, t: int)
    requires
        0 <= j <= t < first_free(table, home, j),
    ensures
        t < table.len(),
        table[wrap(home + t, table.len() as int)].0 != 0,
    decreases table.len() - j,
{
    if j < table.len() && table[wrap(home + j, table.len() as int)].0 != 0 {
        if j < t {
            lemma_first_free_is_first(table, home, j + 1, t);
        }
    }
}

/// Where the search for a free slot ends before the table does, it ends at
/// an empty slot.
pub proof fn lemma_first_free_is_free(table: Seq<Slot>, home: int, j: int)
    requires
        0 <= j,
        first_free(table, home, j) < table.len(),
    ensures
        table[wrap(home + first_free(table, home, j), table.len() as int)].0 == 0,
    decreases table.len() - j,
{
    if j < table.len() && table[wrap(home + j, table.len() as int)].0 != 0 {
        lemma_first_free_is_free(table, home, j + 1);
    }
}

/// An empty slot `t` probes on stops the search for a free slot there or
/// earlier.
pub proof fn lemma_first_free_before(table: Seq<Slot>, home: int, j: int, t: int)
    requires
        0 <= j <= t < table.len(),
        table[wrap(home + t, table.len() as int)].0 == 0,
    ensures
        first_free(table, home, j) <= t,
    decreases table.len() - j,
{
    if j < t && table[wrap(home + j, table.len() as int)].0 != 0 {
        lemma_first_free_before(table, home, j + 1, t);
    }
}

/// A table whose slots are all taken has as many filled slots as slots.
pub proof fn lemma_filled_all(table: Seq<Slot>, k: int)
    requires
        0 <= k <= table.len(),
        forall|s: int| 0 <= s < k ==> (#[trigger] table[s]).0 != 0,
    ensures
        filled(table, k) == k,
    decreases k,
{
    if k > 0 {
        lemma_filled_all(table, k - 1);
    }
}

/// Writing one slot adds at most one to the number of filled slots, and
/// nothing to the number of those that lie before it.
pub proof fn lemma_filled_update(table: Seq<Slot>, s: int, entry: Slot, k: int)
    requires
        0 <= s < table.len(),
        0 <= k <= table.len(),
    ensures
        k <= s ==> filled(table.update(s, entry), k) == filled(table, k),
        filled(table.update(s, entry), k) <= filled(table, k) + 1,
        0 <= filled(table, k) <= k,
    decreases k,
{
    if k > 0 {
        lemma_filled_update(table, s, entry, k - 1);
    }
}

/// A table with fewer filled slots than slots has a free slot on the way
/// from any home slot.
pub proof fn lemma_room_gives_free_slot(table: Seq<Slot>, home: int)
    requires
        0 <= home < table.len(),
        filled(table, table.len() as int) < table.len(),
    ensures
        first_free(table, home, 0) < table.len(),
{
    let m = table.len() as int;
    if forall|s: int| 0 <= s < m ==> (#[trigger] table[s]).0 != 0 {
        lemma_filled_all(table, m);
    } else {
        let s = choose|s: int| 0 <= s < m && (#[trigger] table[s]).0 == 0;
        let t = distance(home, s, m);
        assert(wrap(home + t, m) == s);
        lemma_first_free_before(table, home, 0, t);
    }
}

/// A search that meets no slot with hash `h` gathers nothing.
pub proof fn lemma_scan_without_match(table: Seq<Slot>, home: int, j: int, h: u32)
    requires
        0 <= j,
        forall|t: int|
            j <= t < table.len() ==> (#[trigger] table[wrap(home + t, table.len() as int)]).0 != h,
    ensures
        scan(table, home, j, h) == Seq::<u32>::empty(),
    decreases table.len() - j,
{
    if j < table.len() {
        assert(table[wrap(home + j, table.len() as int)].0 != h);
        lemma_scan_without_match(table, home, j + 1, h);
    }
}

/// What a search gathers once the empty slot `s` has been written: where
/// the search used to stop before `s`, the same; else what it gathered up to
/// `s` and then what it gathers from `s` on.
pub proof fn lemma_scan_after_update(
    table: Seq<Slot>,
    s: int,
    entry: Slot,
    home: int,
    j: int,
    h: u32,
)
    requires
        0 <= home < table.len(),
        0 <= s < table.len(),
        table[s].0 == 0,
        0 <= j <= distance(home, s, table.len() as int),
    ensures
        scan(table.update(s, entry), home, j, h) == if first_free(table, home, j) < distance(
            home,
            s,
            table.len() as int,
        ) {
            scan(table, home, j, h)
        } else {
            scan(table, home, j, h) + scan(
                table.update(s, entry),
                home,
                distance(home, s, table.len() as int),
                h,
            )
        },
    decreases distance(home, s, table.len() as int) - j,
{
    let m = table.len() as int;
    let at = distance(home, s, m);
    let after = table.update(s, entry);
    assert(wrap(home + at, m) == s);
    if j == at {
        assert(scan(table, home, j, h) =~= Seq::<u32>::empty());
        assert(Seq::<u32>::empty() + scan(after, home, at, h) =~= scan(after, home, at, h));
    } else {
        let x = wrap(home + j, m);
        assert(x != s);
        assert(after[x] == table[x]);
        if table[x].0 != 0 {
            lemma_scan_after_update(table, s, entry, home, j + 1, h);
            if table[x].0 == h && first_free(table, home, j + 1) >= at {
                assert((seq![table[x].1] + scan(table, home, j + 1, h)) + scan(after, home, at, h)
                    =~= seq![table[x].1] + (scan(table, home, j + 1, h) + scan(
                    after,
                    home,
                    at,
                    h,
                )));
            }
        }
    }
}

/// Placing an entry adds its position to what the search for its hash
/// gathers, at the end, and leaves the searches for other hashes as they
/// were.
pub proof fn lemma_place_scan(table: Seq<Slot>, entry: Slot, h: u32)
    requires
        settled(table),
        filled(table, table.len() as int) < table.len(),
        h != 0,
    ensures
        scan(place(table, entry), home_slot(h, table.len() as int), 0, h) == if entry.0 == h {
            scan(table, home_slot(h, table.len() as int), 0, h).push(entry.1)
        } else {
            scan(table, home_slot(h, table.len() as int), 0, h)
        },
{
    let m = table.len() as int;
    let home = home_slot(h, m);
    let from = home_slot(entry.0, m);
    lemma_home_slot_in_table(h, m);
    lemma_home_slot_in_table(entry.0, m);
    lemma_room_gives_free_slot(table, from);
    lemma_first_free_range(table, from, 0);
    lemma_first_free_is_free(table, from, 0);
    let steps = first_free(table, from, 0);
    let s = wrap(from + steps, m);
    let after = table.update(s, entry);
    assert(after == place(table, entry));
    let at = distance(home, s, m);
    assert(wrap(home + at, m) == s);
    lemma_scan_after_update(table, s, entry, home, 0, h);
    lemma_first_free_before(table, home, 0, at);
    if first_free(table, home, 0) < at {
        if entry.0 == h {
            assert(at == steps);
        }
    } else {
        assert forall|t: int| at + 1 <= t < m implies (#[trigger] after[wrap(home + t, m)]).0
            != h by {
            let x = wrap(home + t, m);
            assert(x != s);
            if table[x].0 == h {
                assert(distance(home, x, m) == t);
                assert(taken_on_the_way(table, x, at));
            }
        }
        lemma_scan_without_match(after, home, at + 1, h);
        if entry.0 == h {
            assert(scan(after, home, at, h) =~= seq![entry.1]);
            assert(scan(table, home, 0, h) + seq![entry.1] =~= scan(table, home, 0, h).push(
                entry.1,
            ));
        } else {
            assert(scan(after, home, at, h) =~= Seq::<u32>::empty());
            assert(scan(table, home, 0, h) + Seq::<u32>::empty() =~= scan(table, home, 0, h));
        }
    }
}

/// Placing an entry leaves no entry behind an empty slot.
pub proof fn lemma_place_settled(table: Seq<Slot>, entry: Slot)
    requires
        settled(table),
        table.len() > 0,
    ensures
        settled(place(table, entry)),
{
    let m = table.len() as int;
    let from = home_slot(entry.0, m);
    lemma_home_slot_in_table(entry.0, m);
    lemma_first_free_range(table, from, 0);
    let steps = first_free(table, from, 0);
    if steps < m {
        lemma_first_free_is_free(table, from, 0);
        let s = wrap(from + steps, m);
        let after = table.update(s, entry);
        assert forall|x: int, j: int|
            0 <= x < m && after[x].0 != 0 && 0 <= j <= distance(
                home_slot(after[x].0, m),
                x,
                m,
            ) implies #[trigger] taken_on_the_way(after, x, j) by {
            lemma_home_slot_in_table(after[x].0, m);
            let y = wrap(home_slot(after[x].0, m) + j, m);
            if x == s {
                if j < steps {
                    lemma_first_free_is_first(table, from, 0, j);
                    assert(y != s);
                }
            } else {
                assert(taken_on_the_way(table, x, j));
                assert(y != s);
            }
        }
    }
}

/// An empty table has no filled slot.
pub proof fn lemma_filled_empty(m: nat, k: int)
    requires
        0 <= k <= m,
    ensures
        filled(empty_table(m), k) == 0,
    decreases k,
{
    if k > 0 {
        lemma_filled_empty(m, k - 1);
    }
}

/// On a table that has room for its entries, the search for a hash gathers
/// the positions of the entries with that hash, in the order in which they
/// were placed.
pub proof fn lemma_fill_scan(entries: Seq<Slot>, m: nat, h: u32)
    requires
        entries.len() <= m,
        h != 0,
    ensures
        fill(entries, m).len() == m,
        settled(fill(entries, m)),
        filled(fill(entries, m), m as int) <= entries.len(),
        scan(fill(entries, m), home_slot(h, m as int), 0, h) == positions_with(entries, h),
    decreases entries.len(),
{
    lemma_fill_len(entries, m);
    if entries.len() == 0 {
        lemma_filled_empty(m, m as int);
        if m > 0 {
            lemma_home_slot_in_table(h, m as int);
        }
        assert(scan(empty_table(m), home_slot(h, m as int), 0, h) =~= Seq::<u32>::empty());
    } else {
        let before = fill(entries.drop_last(), m);
        lemma_fill_scan(entries.drop_last(), m, h);
        lemma_place_scan(before, entries.last(), h);
        lemma_place_settled(before, entries.last());
        let from = home_slot(entries.last().0, m as int);
        lemma_home_slot_in_table(entries.last().0, m as int);
        lemma_first_free_range(before, from, 0);
        if first_free(before, from, 0) < m {
            lemma_filled_update(
                before,
                wrap(from + first_free(before, from, 0), m as int),
                entries.last(),
                m as int,
            );
        }
    }
}

/// Every taken slot of a filled table holds one of the entries.
pub proof fn lemma_fill_holds_entries(entries: Seq<Slot>, m: nat, s: int)
    requires
        0 <= s < m,
        fill(entries, m)[s].0 != 0,
    ensures
        entries.contains(fill(entries, m)[s]),
    decreases entries.len(),
{
    if entries.len() > 0 {
        let before = fill(entries.drop_last(), m);
        lemma_fill_len(entries.drop_last(), m);
        let from = home_slot(entries.last().0, m as int);
        lemma_home_slot_in_table(entries.last().0, m as int);
        lemma_first_free_range(before, from, 0);
        let steps = first_free(before, from, 0);
        if steps < m && s == wrap(from + steps, m as int) {
            assert(entries[entries.len() - 1] == fill(entries, m)[s]);
        } else {
            lemma_fill_holds_entries(entries.drop_last(), m, s);
            let i = choose|i: int|
                0 <= i < entries.drop_last().len() && entries.drop_last()[i] == before[s];
            assert(entries[i] == fill(entries, m)[s]);
        }
    }
}

/// A table that has room for its entries holds each entry whose hash is not
/// zero as often as the list of entries does.
pub proof fn lemma_fill_keeps_entries(entries: Seq<Slot>, m: nat, entry: Slot)
    requires
        entries.len() <= m,
        entry.0 != 0,
    ensures
        fill(entries, m).to_multiset().count(entry) == entries.to_multiset().count(entry),
    decreases entries.len(),
{
    broadcast use vstd::seq_lib::group_to_multiset_ensures;

    if entries.len() == 0 {
        assert(!empty_table(m).contains(entry));
        assert(!entries.contains(entry));
    } else {
        let earlier = entries.drop_last();
        let before = fill(earlier, m);
        let from = home_slot(entries.last().0, m as int);
        lemma_fill_keeps_entries(earlier, m, entry);
        lemma_fill_scan(earlier, m, entry.0);
        lemma_home_slot_in_table(entries.last().0, m as int);
        lemma_room_gives_free_slot(before, from);
        lemma_first_free_range(before, from, 0);
        lemma_first_free_is_free(before, from, 0);
        let s = wrap(from + first_free(before, from, 0), m as int);
        assert(fill(entries, m) == before.update(s, entries.last()));
        assert(entries == earlier.push(entries.last()));
        assert(before[s] != entry);
    }
}

/// The positions under a hash in a longer list are those in its parts.
pub proof fn lemma_positions_with_add(x: Seq<Slot>, y: Seq<Slot>, h: u32)
    ensures
        positions_with(x + y, h) == positions_with(x, h) + positions_with(y, h),
    decreases y.len(),
{
    if y.len() == 0 {
        assert(x + y =~= x);
        assert(positions_with(x, h) + positions_with(y, h) =~= positions_with(x, h));
    } else {
        lemma_positions_with_add(x, y.drop_last(), h);
        assert((x + y).drop_last() =~= x + y.drop_last());
        assert((x + y).last() == y.last());
        assert(positions_with(x + y, h) =~= positions_with(x, h) + positions_with(y, h));
    }
}

/// A list without an entry of hash `h` has no position under `h`.
pub proof fn lemma_positions_with_none(entries: Seq<Slot>, h: u32)
    requires
        forall|i: int| 0 <= i < entries.len() ==> (#[trigger] entries[i]).0 != h,
    ensures
        positions_with(entries, h) == Seq::<u32>::empty(),
    decreases entries.len(),
{
    if entries.len() > 0 {
        assert(entries.last() == entries[entries.len() - 1]);
        assert forall|i: int| 0 <= i < entries.drop_last().len() implies (
        #[trigger] entries.drop_last()[i]).0 != h by {
            assert(entries.drop_last()[i] == entries[i]);
        }
        lemma_positions_with_none(entries.drop_last(), h);
    }
}

/// Each position occurs under a hash as often as the list holds the entry
/// of that hash and position.
pub proof fn lemma_positions_with_count(entries: Seq<Slot>, h: u32, position: u32)
    ensures
        positions_with(entries, h).to_multiset().count(position) == entries.to_multiset().count(
            (h, position),
        ),
    decreases entries.len(),
{
    broadcast use vstd::seq_lib::group_to_multiset_ensures;

    if entries.len() == 0 {
        assert(!entries.contains((h, position)));
        assert(!positions_with(entries, h).contains(position));
    } else {
        lemma_positions_with_count(entries.drop_last(), h, position);
        assert(entries == entries.drop_last().push(entries.last()));
    }
}

/// The positions of the entries with hash `h` are no more than the entries.
pub proof fn lemma_positions_with_len(entries: Seq<Slot>, h: u32)
    ensures
        positions_with(entries, h).len() <= entries.len(),
    decreases entries.len(),
{
    if entries.len() > 0 {
        lemma_positions_with_len(entries.drop_last(), h);
    }
}

/// The search for the hash zero gathers nothing: a slot with that hash
/// counts as empty.
pub proof fn lemma_scan_zero(table: Seq<Slot>, home: int, j: int)
    requires
        0 <= j,
    ensures
        scan(table, home, j, 0) == Seq::<u32>::empty(),
    decreases table.len() - j,
{
    if j < table.len() {
        lemma_scan_zero(table, home, j + 1);
    }
}

/// Every slot of a filled table is empty as it was made or holds one of
/// the entries.
pub proof fn lemma_fill_slot(entries: Seq<Slot>, m: nat, s: int)
    requires
        0 <= s < m,
    ensures
        fill(entries, m)[s] == (0u32, 0u32) || entries.contains(fill(entries, m)[s]),
    decreases entries.len(),
{
    if entries.len() > 0 {
        let before = fill(entries.drop_last(), m);
        lemma_fill_len(entries.drop_last(), m);
        let from = home_slot(entries.last().0, m as int);
        lemma_home_slot_in_table(entries.last().0, m as int);
        lemma_first_free_range(before, from, 0);
        let steps = first_free(before, from, 0);
        if steps < m && s == wrap(from + steps, m as int) {
            assert(entries[entries.len() - 1] == fill(entries, m)[s]);
        } else {
            lemma_fill_slot(entries.drop_last(), m, s);
            if before[s] != (0u32, 0u32) {
                let i = choose|i: int|
                    0 <= i < entries.drop_last().len() && entries.drop_last()[i] == before[s];
                assert(entries[i] == fill(entries, m)[s]);
            }
        }
    }
}

} // verus!
