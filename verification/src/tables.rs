//! The hash table of one bucket: how the writer lays its entries out.
//!
//! A table is an open-addressed array of `(hash, position)` slots. A slot
//! whose hash is zero counts as empty. An entry goes to the first empty
//! slot at or after its home slot, wrapping round at the end of the table.
use crate::layout::{home_slot, wrap};
use vstd::prelude::*;

verus! {

/// A `(hash, position)` pair, as a bucket list and a table slot hold it.
pub type Slot = (u32, u32);

/// A table of `m` empty slots.
pub open spec fn empty_table(m: nat) -> Seq<Slot> {
    Seq::new(m, |i: int| (0u32, 0u32))
}

/// The number of the first probe, from the `j`th on, that finds an empty
/// slot; the length of the table where none does.
pub open spec fn first_free(table: Seq<Slot>, home: int, j: int) -> int
    decreases table.len() - j,
{
    if j >= table.len() {
        table.len() as int
    } else if table[wrap(home + j, table.len() as int)].0 == 0 {
        j
    } else {
        first_free(table, home, j + 1)
    }
}

/// The table with `entry` put into the first empty slot that a search from
/// its home slot finds. A table without such a slot stays as it is.
pub open spec fn place(table: Seq<Slot>, entry: Slot) -> Seq<Slot> {
    let m = table.len() as int;
    let home = home_slot(entry.0, m);
    let j = first_free(table, home, 0);
    if j < m {
        table.update(wrap(home + j, m), entry)
    } else {
        table
    }
}

/// A table of `m` slots with `entries` placed one after the other.
pub open spec fn fill(entries: Seq<Slot>, m: nat) -> Seq<Slot>
    decreases entries.len(),
{
    if entries.len() == 0 {
        empty_table(m)
    } else {
        place(fill(entries.drop_last(), m), entries.last())
    }
}

/// The table that is written for a bucket list: two slots for each entry.
pub open spec fn table_of(entries: Seq<Slot>) -> Seq<Slot> {
    fill(entries, 2 * entries.len())
}

/// The home slot of a hash is a slot of the table.
pub proof fn lemma_home_slot_in_table(h: u32, m: int)
    requires
        m > 0,
    ensures
        0 <= home_slot(h, m) < m,
{
    let x = h as int / 256;
    assert(0 <= x % m < m) by (nonlinear_arith)
        requires
            m > 0,
    ;
}

/// The first empty slot is found at or after the probe that the search
/// starts from.
pub proof fn lemma_first_free_range(table: Seq<Slot>, home: int, j: int)
    requires
        0 <= j <= table.len(),
    ensures
        j <= first_free(table, home, j) <= table.len(),
    decreases table.len() - j,
{
    if j < table.len() && table[wrap(home + j, table.len() as int)].0 != 0 {
        lemma_first_free_range(table, home, j + 1);
    }
}

/// Placing an entry keeps the number of slots.
pub proof fn lemma_place_len(table: Seq<Slot>, entry: Slot)
    ensures
        place(table, entry).len() == table.len(),
{
    let m = table.len() as int;
    if m > 0 {
        lemma_home_slot_in_table(entry.0, m);
        lemma_first_free_range(table, home_slot(entry.0, m), 0);
    }
}

/// Filling keeps the number of slots.
pub proof fn lemma_fill_len(entries: Seq<Slot>, m: nat)
    ensures
        fill(entries, m).len() == m,
    decreases entries.len(),
{
    if entries.len() > 0 {
        lemma_fill_len(entries.drop_last(), m);
        lemma_place_len(fill(entries.drop_last(), m), entries.last());
    }
}

/// Lay the entries of one bucket out as its hash table.
pub(crate) fn build_table(entries: &Vec<Slot>) -> (table: Vec<Slot>)
    requires
        entries@.len() <= 0x1000_0000,
    ensures
        table@ == table_of(entries@),
        table@.len() == 2 * entries@.len(),
{
    let n: usize = entries.len();
    let m: usize = 2 * n;
    let mut table: Vec<Slot> = Vec::with_capacity(m);
    let mut i: usize = 0;
    while i < m
        invariant
            i <= m,
            table@ == empty_table(i as nat),
        decreases m - i,
    {
        table.push((0u32, 0u32));
        assert(table@ =~= empty_table((i + 1) as nat));
        i += 1;
    }
    let mut k: usize = 0;
    while k < n
        invariant
            k <= n,
            n == entries@.len(),
            m == 2 * n,
            m <= 0x2000_0000,
            table@ == fill(entries@.take(k as int), m as nat),
            table@.len() == m,
        decreases n - k,
    {
        let entry: Slot = entries[k];
        let h: u32 = entry.0;
        assert(h >> 8 == h / 256) by (bit_vector);
        let home: usize = ((h >> 8) as u64 % (m as u64)) as usize;
        let mut j: usize = 0;
        let mut slot: usize = home;
        while j < m && table[slot].0 != 0
            invariant
                j <= m,
                home < m,
                table@.len() == m,
                m <= 0x2000_0000,
                j < m ==> slot == wrap(home + j, m as int),
                first_free(table@, home as int, 0) == first_free(table@, home as int, j as int),
            decreases m - j,
        {
            j += 1;
            if j < m {
                slot = if home + j < m { home + j } else { home + j - m };
            }
        }
        proof {
            assert(entries@.take(k + 1).drop_last() == entries@.take(k as int));
            assert(home == home_slot(entry.0, m as int));
        }
        if j < m {
            table.set(slot, entry);
        }
        k += 1;
    }
    proof {
        assert(entries@.take(n as int) == entries@);
    }
    table
}

} // verus!
