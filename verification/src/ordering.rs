//! Lists in the order of their positions: how a reader that turns into a
//! writer finds the order of the puts again.
//!
//! Records lie in the bytes in the order in which they were put, so the
//! entries of a bucket list have rising positions. Sorting the slots of a
//! table by position therefore gives the bucket list back.
use crate::history::sorted_by_bucket;
use crate::image::{empty_buckets, insert_by_position, regroup};
use crate::layout::{bucket_of, BUCKETS};
use crate::probing::{lemma_positions_with_count, positions_with};
use crate::tables::Slot;
use vstd::prelude::*;

verus! {

/// Whether the positions of the entries never fall along the list.
pub open spec fn in_order(list: Seq<Slot>) -> bool {
    forall|i: int, j: int| 0 <= i < j < list.len() ==> list[i].1 <= list[j].1
}

/// Whether the positions of the entries rise along the list.
pub open spec fn in_strict_order(list: Seq<Slot>) -> bool {
    forall|i: int, j: int| 0 <= i < j < list.len() ==> list[i].1 < list[j].1
}

/// Whether the keys of the items never fall along the list.
pub open spec fn ascending<A>(list: Seq<A>, key: spec_fn(A) -> int) -> bool {
    forall|i: int, j: int| 0 <= i < j < list.len() ==> key(list[i]) <= key(list[j])
}

/// Whether the keys of the items rise along the list.
pub open spec fn strictly_ascending<A>(list: Seq<A>, key: spec_fn(A) -> int) -> bool {
    forall|i: int, j: int| 0 <= i < j < list.len() ==> key(list[i]) < key(list[j])
}

/// Two lists of the same items are the same list, where the keys of the one
/// never fall and the keys of the other rise.
pub proof fn lemma_same_items_same_list<A>(p: Seq<A>, q: Seq<A>, key: spec_fn(A) -> int)
    requires
        ascending(p, key),
        strictly_ascending(q, key),
        p.to_multiset() == q.to_multiset(),
    ensures
        p == q,
    decreases p.len(),
{
    broadcast use vstd::seq_lib::group_to_multiset_ensures;

    assert(p.len() == p.to_multiset().len());
    assert(q.len() == q.to_multiset().len());
    if p.len() == 0 {
        assert(p =~= q);
    } else {
        let n = p.len() as int;
        let x = p[n - 1];
        let y = q[n - 1];
        assert(p.contains(x));
        assert(p.to_multiset().count(x) > 0);
        assert(q.to_multiset().count(x) > 0);
        assert(q.contains(x));
        let j = choose|j: int| 0 <= j < q.len() && q[j] == x;
        assert(q.contains(y));
        assert(q.to_multiset().count(y) > 0);
        assert(p.to_multiset().count(y) > 0);
        assert(p.contains(y));
        let i = choose|i: int| 0 <= i < p.len() && p[i] == y;
        assert(key(y) <= key(x)) by {
            if i < n - 1 {
                assert(key(p[i]) <= key(p[n - 1]));
            }
        }
        assert(j == n - 1) by {
            if j < n - 1 {
                assert(key(q[j]) < key(q[n - 1]));
            }
        }
        assert(x == y);
        assert(p.drop_last() =~= p.remove(n - 1));
        assert(q.drop_last() =~= q.remove(n - 1));
        assert(p.drop_last().to_multiset() == q.drop_last().to_multiset());
        assert(ascending(p.drop_last(), key)) by {
            assert forall|a: int, b: int| 0 <= a < b < p.drop_last().len() implies key(
                p.drop_last()[a],
            ) <= key(p.drop_last()[b]) by {
                assert(key(p[a]) <= key(p[b]));
            }
        }
        assert(strictly_ascending(q.drop_last(), key)) by {
            assert forall|a: int, b: int| 0 <= a < b < q.drop_last().len() implies key(
                q.drop_last()[a],
            ) < key(q.drop_last()[b]) by {
                assert(key(q[a]) < key(q[b]));
            }
        }
        lemma_same_items_same_list(p.drop_last(), q.drop_last(), key);
        assert(p =~= p.drop_last().push(x));
        assert(q =~= q.drop_last().push(y));
    }
}

/// Putting an entry in by its position adds the entry and nothing else.
pub proof fn lemma_insert_by_position_items(list: Seq<Slot>, entry: Slot)
    ensures
        insert_by_position(list, entry).to_multiset() == list.to_multiset().insert(entry),
        insert_by_position(list, entry).len() == list.len() + 1,
    decreases list.len(),
{
    broadcast use vstd::seq_lib::group_to_multiset_ensures;

    if list.len() == 0 || list.last().1 <= entry.1 {
    } else {
        lemma_insert_by_position_items(list.drop_last(), entry);
        assert(list == list.drop_last().push(list.last()));
        assert(insert_by_position(list, entry).to_multiset() =~= list.to_multiset().insert(entry));
    }
}

/// Putting an entry in by its position keeps the positions in order.
pub proof fn lemma_insert_by_position_in_order(list: Seq<Slot>, entry: Slot)
    requires
        in_order(list),
    ensures
        in_order(insert_by_position(list, entry)),
    decreases list.len(),
{
    broadcast use vstd::seq_lib::group_to_multiset_ensures;

    let after = insert_by_position(list, entry);
    if list.len() == 0 || list.last().1 <= entry.1 {
        assert forall|i: int, j: int| 0 <= i < j < after.len() implies after[i].1
            <= after[j].1 by {
            if j == list.len() {
                assert(list[i].1 <= list[list.len() - 1].1);
            }
        }
    } else {
        let front = list.drop_last();
        let moved = insert_by_position(front, entry);
        assert(in_order(front)) by {
            assert forall|i: int, j: int| 0 <= i < j < front.len() implies front[i].1
                <= front[j].1 by {
                assert(list[i].1 <= list[j].1);
            }
        }
        lemma_insert_by_position_in_order(front, entry);
        lemma_insert_by_position_items(front, entry);
        assert forall|i: int, j: int| 0 <= i < j < after.len() implies after[i].1
            <= after[j].1 by {
            if j == moved.len() {
                assert(moved.contains(moved[i]));
                assert(moved.to_multiset().count(moved[i]) > 0);
                if moved[i] != entry {
                    assert(front.to_multiset().count(moved[i]) > 0);
                    assert(front.contains(moved[i]));
                    let t = choose|t: int| 0 <= t < front.len() && front[t] == moved[i];
                    assert(list[t].1 <= list[list.len() - 1].1);
                }
            } else {
                assert(moved[i].1 <= moved[j].1);
            }
        }
    }
}

/// Slots are sorted into 256 lists, each with its positions in order, and
/// each holding entries of its own bucket only. A list holds an entry as
/// often as the slots do, and none whose position is zero.
pub proof fn lemma_regroup(slots: Seq<Slot>, entry: Slot)
    ensures
        regroup(slots).len() == BUCKETS,
        sorted_by_bucket(regroup(slots)),
        forall|b: int| 0 <= b < BUCKETS ==> in_order(#[trigger] regroup(slots)[b]),
        regroup(slots)[bucket_of(entry.0)].to_multiset().count(entry) == if entry.1 != 0 {
            slots.to_multiset().count(entry)
        } else {
            0
        },
    decreases slots.len(),
{
    broadcast use vstd::seq_lib::group_to_multiset_ensures;

    let b = bucket_of(entry.0);
    if slots.len() == 0 {
        assert(!slots.contains(entry));
        assert(!empty_buckets()[b].contains(entry));
        assert(sorted_by_bucket(empty_buckets()));
    } else {
        let slot = slots.last();
        let earlier = regroup(slots.drop_last());
        lemma_regroup(slots.drop_last(), entry);
        assert(slots == slots.drop_last().push(slot));
        if slot.1 != 0 {
            let c = bucket_of(slot.0);
            let list = earlier[c];
            let after = insert_by_position(list, slot);
            lemma_insert_by_position_items(list, slot);
            lemma_insert_by_position_in_order(list, slot);
            assert(regroup(slots) == earlier.update(c, after));
            assert forall|k: int, i: int|
                0 <= k < regroup(slots).len() && 0 <= i < regroup(slots)[k].len() implies bucket_of(
                (#[trigger] regroup(slots)[k][i]).0,
            ) == k by {
                if k == c {
                    assert(after.contains(after[i]));
                    assert(after.to_multiset().count(after[i]) > 0);
                    if after[i] != slot {
                        assert(list.to_multiset().count(after[i]) > 0);
                        assert(list.contains(after[i]));
                        let t = choose|t: int| 0 <= t < list.len() && list[t] == after[i];
                        assert(bucket_of(earlier[c][t].0) == c);
                    }
                } else {
                    assert(bucket_of(earlier[k][i].0) == k);
                }
            }
        }
    }
}

/// Whether an entry of the list has the position.
pub open spec fn points_at(list: Seq<Slot>, position: u32) -> bool {
    exists|u: int| 0 <= u < list.len() && (#[trigger] list[u]).1 == position
}

/// The positions under a hash are in the order of the list: they never
/// fall where those of the list never fall, and rise where those rise.
pub proof fn lemma_positions_with_in_order(list: Seq<Slot>, h: u32)
    ensures
        in_order(list) ==> ascending(positions_with(list, h), |p: u32| p as int),
        in_strict_order(list) ==> strictly_ascending(positions_with(list, h), |p: u32| p as int),
    decreases list.len(),
{
    broadcast use vstd::seq_lib::group_to_multiset_ensures;

    let found = positions_with(list, h);
    if list.len() > 0 {
        let front = list.drop_last();
        let before = positions_with(front, h);
        lemma_positions_with_in_order(front, h);
        assert forall|t: int| 0 <= t < before.len() implies #[trigger] points_at(
            front,
            before[t],
        ) by {
            lemma_positions_with_count(front, h, before[t]);
            assert(before.contains(before[t]));
            assert(before.to_multiset().count(before[t]) > 0);
            assert(front.to_multiset().count((h, before[t])) > 0);
            assert(front.contains((h, before[t])));
            let u = choose|u: int| 0 <= u < front.len() && front[u] == (h, before[t]);
            assert(front[u].1 == before[t]);
        }
        if in_order(list) {
            assert(in_order(front)) by {
                assert forall|i: int, j: int| 0 <= i < j < front.len() implies front[i].1
                    <= front[j].1 by {
                    assert(list[i].1 <= list[j].1);
                }
            }
            assert forall|i: int, j: int| 0 <= i < j < found.len() implies found[i] as int
                <= found[j] as int by {
                if j == before.len() {
                    assert(points_at(front, before[i]));
                    let u = choose|u: int| 0 <= u < front.len() && (#[trigger] front[u]).1
                        == before[i];
                    assert(list[u].1 <= list[list.len() - 1].1);
                } else {
                    assert(before[i] as int <= before[j] as int);
                }
            }
        }
        if in_strict_order(list) {
            assert(in_strict_order(front)) by {
                assert forall|i: int, j: int| 0 <= i < j < front.len() implies front[i].1
                    < front[j].1 by {
                    assert(list[i].1 < list[j].1);
                }
            }
            assert forall|i: int, j: int| 0 <= i < j < found.len() implies (found[i] as int)
                < found[j] as int by {
                if j == before.len() {
                    assert(points_at(front, before[i]));
                    let u = choose|u: int| 0 <= u < front.len() && (#[trigger] front[u]).1
                        == before[i];
                    assert(list[u].1 < list[list.len() - 1].1);
                } else {
                    assert((before[i] as int) < before[j] as int);
                }
            }
        }
    }
}

/// Where an entry goes by its position: to the place before which no
/// position is greater and from which on every position is.
pub proof fn lemma_insert_by_position_at(list: Seq<Slot>, entry: Slot, at: int)
    requires
        0 <= at <= list.len(),
        forall|t: int| at <= t < list.len() ==> (#[trigger] list[t]).1 > entry.1,
        at > 0 ==> list[at - 1].1 <= entry.1,
    ensures
        insert_by_position(list, entry) == list.insert(at, entry),
    decreases list.len() - at,
{
    if at == list.len() {
        assert(list.push(entry) =~= list.insert(at, entry));
    } else {
        assert(list.last() == list[list.len() - 1]);
        assert forall|t: int| at <= t < list.drop_last().len() implies (
        #[trigger] list.drop_last()[t]).1 > entry.1 by {
            assert(list.drop_last()[t] == list[t]);
        }
        lemma_insert_by_position_at(list.drop_last(), entry, at);
        assert(list.drop_last().insert(at, entry).push(list.last()) =~= list.insert(at, entry));
    }
}

} // verus!
