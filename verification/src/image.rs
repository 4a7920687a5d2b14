//! What the writer puts into the bytes of a database: records, hash tables
//! and the header that points at them.
use crate::helpers::{lemma_unpack_pack, pack, spec_pack};
use crate::layout::{
    bucket_of, header_entries, min_position, pair_at, record_count, slot_total, table_start,
    BUCKETS, HEADER_SIZE,
};
use crate::tables::{lemma_fill_len, table_of, Slot};
use vstd::prelude::*;

verus! {

/// The bytes of a run of pairs: each pair as two packed numbers.
pub open spec fn pairs_bytes(pairs: Seq<Slot>) -> Seq<u8> {
    Seq::new(
        8 * pairs.len(),
        |i: int|
            if i % 8 < 4 {
                spec_pack(pairs[i / 8].0)[i % 8]
            } else {
                spec_pack(pairs[i / 8].1)[i % 8 - 4]
            },
    )
}

/// The bytes of one record: the two lengths, the key, the value.
pub open spec fn record_bytes(key: Seq<u8>, value: Seq<u8>) -> Seq<u8> {
    spec_pack(key.len() as u32) + spec_pack(value.len() as u32) + key + value
}

/// `data` with its first bytes replaced by `front`; where `data` is the
/// shorter of the two, `front` alone.
pub open spec fn overwrite_front(data: Seq<u8>, front: Seq<u8>) -> Seq<u8> {
    if data.len() <= front.len() {
        front
    } else {
        front + data.subrange(front.len() as int, data.len() as int)
    }
}

/// A header that is all zero.
pub open spec fn blank_header() -> Seq<u8> {
    Seq::new(HEADER_SIZE as nat, |i: int| 0u8)
}

/// 256 bucket lists without an entry.
pub open spec fn empty_buckets() -> Seq<Seq<Slot>> {
    Seq::new(BUCKETS as nat, |b: int| Seq::<Slot>::empty())
}

/// The bucket lists with `entry` added at the end of the list that its hash
/// selects.
pub open spec fn add_entry(buckets: Seq<Seq<Slot>>, entry: Slot) -> Seq<Seq<Slot>> {
    let b = bucket_of(entry.0);
    buckets.update(b, buckets[b].push(entry))
}

/// The views of a list of bucket lists.
pub open spec fn lists_view(index: Seq<Vec<Slot>>) -> Seq<Seq<Slot>> {
    Seq::new(index.len(), |b: int| index[b]@)
}

/// The list with `entry` put in by its position: behind the entries whose
/// position is not greater, and before those whose position is.
pub open spec fn insert_by_position(list: Seq<Slot>, entry: Slot) -> Seq<Slot>
    decreases list.len(),
{
    if list.len() == 0 || list.last().1 <= entry.1 {
        list.push(entry)
    } else {
        insert_by_position(list.drop_last(), entry).push(list.last())
    }
}

/// The bucket lists with `entry` put by its position into the list that its
/// hash selects.
pub open spec fn file_entry(buckets: Seq<Seq<Slot>>, entry: Slot) -> Seq<Seq<Slot>> {
    let b = bucket_of(entry.0);
    buckets.update(b, insert_by_position(buckets[b], entry))
}

/// The bucket lists that hold the taken slots among `slots`, each in the
/// list that its hash selects and in the order of the positions that the
/// slots point at, which is the order in which the records were put. A slot
/// whose position is zero was never written and goes to no list; a slot
/// that points at a record is kept, also where its hash is zero and a
/// search takes it for empty.
pub open spec fn regroup(slots: Seq<Slot>) -> Seq<Seq<Slot>>
    decreases slots.len(),
{
    if slots.len() == 0 {
        empty_buckets()
    } else if slots.last().1 == 0 {
        regroup(slots.drop_last())
    } else {
        file_entry(regroup(slots.drop_last()), slots.last())
    }
}

/// The whole slots that lie between byte `from` and the end of `data`.
pub open spec fn trailing_slots(data: Seq<u8>, from: int) -> Seq<Slot> {
    Seq::new(
        if from < data.len() {
            ((data.len() - from) / 8) as nat
        } else {
            0
        },
        |i: int| pair_at(data, from + 8 * i),
    )
}

/// `data` cut or grown to `n` bytes; what it grows by is zero.
pub open spec fn resized(data: Seq<u8>, n: int) -> Seq<u8> {
    if n <= data.len() {
        data.take(n)
    } else {
        data + Seq::new((n - data.len()) as nat, |i: int| 0u8)
    }
}

/// The bytes of the writer that a reader of `data` turns into: those of
/// `data` up to where its tables start.
pub open spec fn reopened_bytes(data: Seq<u8>) -> Seq<u8> {
    resized(data, table_start(data) as int)
}

/// The bucket lists of the writer that a reader of `data` turns into: the
/// taken slots of the tables of `data`, in the order of their positions.
pub open spec fn reopened_lists(data: Seq<u8>) -> Seq<Seq<Slot>> {
    regroup(trailing_slots(data, table_start(data) as int))
}

/// The number of table slots that the first `b` buckets take.
pub open spec fn slots_before(buckets: Seq<Seq<Slot>>, b: int) -> int
    decreases b,
{
    if b <= 0 {
        0
    } else {
        slots_before(buckets, b - 1) + 2 * buckets[b - 1].len()
    }
}

/// The tables of the first `b` buckets, one after the other.
pub open spec fn tables_before(buckets: Seq<Seq<Slot>>, b: int) -> Seq<Slot>
    decreases b,
{
    if b <= 0 {
        Seq::empty()
    } else {
        tables_before(buckets, b - 1) + table_of(buckets[b - 1])
    }
}

/// The header entries of a database whose tables start at byte `base`:
/// for each bucket, where its table starts and how many slots it has.
pub open spec fn directory(base: int, buckets: Seq<Seq<Slot>>) -> Seq<Slot> {
    Seq::new(
        BUCKETS as nat,
        |b: int| ((base + 8 * slots_before(buckets, b)) as u32, (2 * buckets[b].len()) as u32),
    )
}

/// Whether the database can be finished: with its tables written it stays
/// within what 32-bit positions reach.
pub open spec fn tables_fit(data: Seq<u8>, buckets: Seq<Seq<Slot>>) -> bool {
    data.len() + 8 * slots_before(buckets, BUCKETS as int) <= u32::MAX
}

/// The finished database: the tables of all buckets after the records, and
/// in front the header that points at them.
pub open spec fn finished(data: Seq<u8>, buckets: Seq<Seq<Slot>>) -> Seq<u8> {
    overwrite_front(
        data + pairs_bytes(tables_before(buckets, BUCKETS as int)),
        pairs_bytes(directory(data.len() as int, buckets)),
    )
}

/// The bytes of a longer run of pairs are those of its parts.
pub proof fn lemma_pairs_bytes_add(a: Seq<Slot>, b: Seq<Slot>)
    ensures
        pairs_bytes(a + b) == pairs_bytes(a) + pairs_bytes(b),
{
    assert(pairs_bytes(a + b) =~= pairs_bytes(a) + pairs_bytes(b));
}

/// The bytes of one pair are its two packed numbers.
pub proof fn lemma_pairs_bytes_one(p: Slot)
    ensures
        pairs_bytes(seq![p]) == spec_pack(p.0) + spec_pack(p.1),
{
    assert(pairs_bytes(seq![p]) =~= spec_pack(p.0) + spec_pack(p.1));
}

/// Reading a pair back from where a run of pairs was written gives the
/// pair.
pub proof fn lemma_pair_at_pairs_bytes(data: Seq<u8>, at: int, pairs: Seq<Slot>, i: int)
    requires
        0 <= at,
        at + 8 * pairs.len() <= data.len(),
        data.subrange(at, at + 8 * pairs.len()) == pairs_bytes(pairs),
        0 <= i < pairs.len(),
    ensures
        pair_at(data, at + 8 * i) == pairs[i],
{
    let run = pairs_bytes(pairs);
    assert forall|t: int| 0 <= t < 8 implies data[at + 8 * i + t] == #[trigger] run[8 * i + t] by {
        assert(data.subrange(at, at + 8 * pairs.len())[8 * i + t] == data[at + 8 * i + t]);
    }
    assert(run[8 * i + 0] == spec_pack(pairs[i].0)[0]);
    assert(run[8 * i + 1] == spec_pack(pairs[i].0)[1]);
    assert(run[8 * i + 2] == spec_pack(pairs[i].0)[2]);
    assert(run[8 * i + 3] == spec_pack(pairs[i].0)[3]);
    assert(run[8 * i + 4] == spec_pack(pairs[i].1)[0]);
    assert(run[8 * i + 5] == spec_pack(pairs[i].1)[1]);
    assert(run[8 * i + 6] == spec_pack(pairs[i].1)[2]);
    assert(run[8 * i + 7] == spec_pack(pairs[i].1)[3]);
    lemma_unpack_pack(pairs[i].0);
    lemma_unpack_pack(pairs[i].1);
}

/// The number of table slots that the first `b` buckets take grows with `b`.
pub proof fn lemma_slots_before_grows(buckets: Seq<Seq<Slot>>, a: int, b: int)
    requires
        0 <= a <= b,
    ensures
        0 <= slots_before(buckets, a) <= slots_before(buckets, b),
    decreases b,
{
    if a < b {
        lemma_slots_before_grows(buckets, a, b - 1);
    } else if b > 0 {
        lemma_slots_before_grows(buckets, a - 1, b - 1);
    }
}

/// The tables of the first `b` buckets take the slots counted for them, and
/// the table of each of these buckets lies where the count before it ends.
pub proof fn lemma_tables_before(buckets: Seq<Seq<Slot>>, b: int, k: int, s: int)
    requires
        0 <= b < k,
        0 <= s < 2 * buckets[b].len(),
    ensures
        tables_before(buckets, k).len() == slots_before(buckets, k),
        0 <= slots_before(buckets, b),
        slots_before(buckets, b) + 2 * buckets[b].len() <= slots_before(buckets, k),
        tables_before(buckets, k)[slots_before(buckets, b) + s] == table_of(buckets[b])[s],
    decreases k,
{
    lemma_tables_len(buckets, k - 1);
    lemma_tables_len(buckets, k);
    lemma_fill_len(buckets[k - 1], 2 * buckets[k - 1].len());
    if b < k - 1 {
        lemma_tables_before(buckets, b, k - 1, s);
    } else {
        lemma_tables_len(buckets, b);
    }
}

/// The tables of the first `b` buckets take the slots counted for them.
pub proof fn lemma_tables_len(buckets: Seq<Seq<Slot>>, b: int)
    ensures
        tables_before(buckets, b).len() == slots_before(buckets, b),
        0 <= slots_before(buckets, b),
    decreases b,
{
    if b > 0 {
        lemma_tables_len(buckets, b - 1);
        lemma_fill_len(buckets[b - 1], 2 * buckets[b - 1].len());
    }
}

/// Where a finished database keeps what: the header holds the directory,
/// the bytes after the header are those that were there before, and behind
/// them lie the slots of all tables.
pub proof fn lemma_finished_layout(data: Seq<u8>, buckets: Seq<Seq<Slot>>)
    requires
        data.len() >= HEADER_SIZE,
        tables_fit(data, buckets),
    ensures
        finished(data, buckets).len() == data.len() + 8 * slots_before(buckets, BUCKETS as int),
        forall|b: int|
            0 <= b < BUCKETS ==> #[trigger] pair_at(finished(data, buckets), 8 * b) == directory(
                data.len() as int,
                buckets,
            )[b],
        forall|x: int|
            HEADER_SIZE <= x < data.len() ==> #[trigger] finished(data, buckets)[x] == data[x],
        forall|i: int|
            0 <= i < slots_before(buckets, BUCKETS as int) ==> #[trigger] pair_at(
                finished(data, buckets),
                data.len() + 8 * i,
            ) == tables_before(buckets, BUCKETS as int)[i],
{
    let tables = tables_before(buckets, BUCKETS as int);
    let dir = directory(data.len() as int, buckets);
    let whole = finished(data, buckets);
    lemma_tables_len(buckets, BUCKETS as int);
    assert(whole.len() == data.len() + 8 * tables.len());
    assert(whole.subrange(0, 8 * (dir.len() as int)) =~= pairs_bytes(dir));
    assert forall|b: int| 0 <= b < BUCKETS implies #[trigger] pair_at(whole, 8 * b) == dir[b] by {
        lemma_pair_at_pairs_bytes(whole, 0, dir, b);
    }
    assert(whole.subrange(data.len() as int, data.len() + 8 * (tables.len() as int))
        =~= pairs_bytes(tables));
    assert forall|i: int| 0 <= i < tables.len() implies #[trigger] pair_at(
        whole,
        data.len() + 8 * i,
    ) == tables[i] by {
        lemma_pair_at_pairs_bytes(whole, data.len() as int, tables, i);
    }
}

/// Append `src` to `dst`.
pub(crate) fn append_bytes(dst: &mut Vec<u8>, src: &[u8])
    ensures
        final(dst)@ == old(dst)@ + src@,
{
    dst.extend_from_slice(src);
    assert(dst@ =~= old(dst)@ + src@);
}

/// Append a run of pairs to `dst`, each as two packed numbers.
pub(crate) fn append_pairs(dst: &mut Vec<u8>, pairs: &Vec<Slot>)
    ensures
        final(dst)@ == old(dst)@ + pairs_bytes(pairs@),
{
    let mut i: usize = 0;
    assert(dst@ =~= old(dst)@ + pairs_bytes(pairs@.take(0)));
    while i < pairs.len()
        invariant
            i <= pairs@.len(),
            dst@ == old(dst)@ + pairs_bytes(pairs@.take(i as int)),
        decreases pairs@.len() - i,
    {
        let pair: Slot = pairs[i];
        let ghost before = dst@;
        append_bytes(dst, pack(pair.0).as_slice());
        append_bytes(dst, pack(pair.1).as_slice());
        proof {
            lemma_pairs_bytes_one(pair);
            lemma_pairs_bytes_add(pairs@.take(i as int), seq![pair]);
            assert(pairs@.take(i + 1) == pairs@.take(i as int) + seq![pair]);
            assert(dst@ =~= before + (spec_pack(pair.0) + spec_pack(pair.1)));
            assert(dst@ =~= old(dst)@ + pairs_bytes(pairs@.take(i + 1)));
        }
        i += 1;
    }
    assert(pairs@.take(i as int) == pairs@);
}

/// Cut or grow `dst` to `n` bytes; what it grows by is zero.
pub(crate) fn resize_bytes(dst: &mut Vec<u8>, n: usize)
    ensures
        final(dst)@ == resized(old(dst)@, n as int),
{
    dst.resize(n, 0u8);
    assert(dst@ =~= resized(old(dst)@, n as int));
}

/// Replace the first bytes of `dst` by `front`, growing `dst` where it is
/// the shorter.
pub(crate) fn write_front(dst: &mut Vec<u8>, front: &Vec<u8>)
    ensures
        final(dst)@ == overwrite_front(old(dst)@, front@),
{
    let n: usize = front.len();
    let mut i: usize = 0;
    while i < n
        invariant
            i <= n,
            n == front@.len(),
            dst@.len() == if old(dst)@.len() < i { i as int } else { old(dst)@.len() as int },
            forall|t: int| 0 <= t < i ==> dst@[t] == front@[t],
            forall|t: int| i <= t < dst@.len() ==> dst@[t] == old(dst)@[t],
        decreases n - i,
    {
        if i < dst.len() {
            dst.set(i, front[i]);
        } else {
            dst.push(front[i]);
        }
        i += 1;
    }
    assert(dst@ =~= overwrite_front(old(dst)@, front@));
}

/// The first `k` entries of the directory account for half the slots of the
/// first `k` tables, and the least position among them is where the tables
/// start.
pub proof fn lemma_directory_totals(base: int, buckets: Seq<Seq<Slot>>, k: int)
    requires
        0 <= k <= BUCKETS,
        0 <= base,
        base + 8 * slots_before(buckets, BUCKETS as int) <= u32::MAX,
    ensures
        2 * slot_total(directory(base, buckets).take(k)) == slots_before(buckets, k),
        k > 0 ==> min_position(directory(base, buckets).take(k)) == base,
    decreases k,
{
    let dir = directory(base, buckets);
    let front = dir.take(k);
    if k > 0 {
        let earlier = dir.take(k - 1);
        let position = base + 8 * slots_before(buckets, k - 1);
        let slots = 2 * buckets[k - 1].len();
        lemma_directory_totals(base, buckets, k - 1);
        lemma_slots_before_grows(buckets, 0, k - 1);
        lemma_slots_before_grows(buckets, k, BUCKETS as int);
        assert(slots_before(buckets, k) == slots_before(buckets, k - 1) + slots);
        assert(base <= position <= u32::MAX);
        assert(0 <= slots <= u32::MAX);
        assert(front.drop_last() == earlier);
        assert(front.last() == dir[k - 1]);
        assert(dir[k - 1] == (position as u32, slots as u32));
        assert(front.last().0 == position);
        assert(front.last().1 == slots);
        assert(front.last().1 / 2 == buckets[k - 1].len());
        assert(slot_total(front) == slot_total(earlier) + buckets[k - 1].len());
        if k == 1 {
            assert(earlier.len() == 0);
            assert(min_position(earlier) == u32::MAX);
            assert(slots_before(buckets, 0) == 0);
            assert(position == base);
        } else {
            assert(min_position(earlier) == base);
        }
        assert(min_position(front) == if front.last().0 < min_position(earlier) {
            front.last().0
        } else {
            min_position(earlier)
        });
    } else {
        assert(front.len() == 0);
        assert(slot_total(front) == 0);
    }
}

/// The header of a finished database counts half the slots of its tables,
/// and the tables start where the bytes of the writer ended.
pub proof fn lemma_finished_header(bytes: Seq<u8>, lists: Seq<Seq<Slot>>)
    requires
        bytes.len() >= HEADER_SIZE,
        tables_fit(bytes, lists),
    ensures
        2 * record_count(finished(bytes, lists)) == slots_before(lists, BUCKETS as int),
        table_start(finished(bytes, lists)) == bytes.len(),
{
    lemma_finished_layout(bytes, lists);
    let dir = directory(bytes.len() as int, lists);
    assert(header_entries(finished(bytes, lists)) =~= dir);
    lemma_directory_totals(bytes.len() as int, lists, BUCKETS as int);
    assert(dir.take(BUCKETS as int) == dir);
}

/// Two writers that differ in their headers only are finished as the same
/// database.
pub proof fn lemma_finished_whatever_header(a: Seq<u8>, b: Seq<u8>, lists: Seq<Seq<Slot>>)
    requires
        a.len() == b.len(),
        a.len() >= HEADER_SIZE,
        forall|x: int| HEADER_SIZE <= x < a.len() ==> a[x] == b[x],
    ensures
        finished(a, lists) == finished(b, lists),
{
    assert(finished(a, lists) =~= finished(b, lists));
}

} // verus!
