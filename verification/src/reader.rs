//! This module allows you to read from a CDB.
use crate::helpers::{hash, spec_hash};
use crate::image::{
    file_entry, lists_view, regroup, reopened_bytes, reopened_lists, resize_bytes,
    trailing_slots,
};
use crate::layout::{
    all_keys, clamped_equals, copy_clamped, header_entries, key_at, lemma_records_from_end,
    lemma_records_from_step, lookup, min_position, probe, read_word, read_word_padded,
    record_count, record_end, records_from, slot_total, table_start, value_at, values_from,
    views, Record, BUCKETS, HEADER_SIZE,
};
use crate::ordering::lemma_insert_by_position_at;
use crate::tables::Slot;
use crate::types::{Error, IoFault};
use crate::writer::Writer;
use vstd::prelude::*;

verus! {

/// Allows you to read from a CDB held in memory.
///
/// The header is decoded once, when the reader is made; the bytes never
/// change while the reader lives.
#[derive(Debug)]
pub struct Reader {
    /// The bytes of the database.
    file: Vec<u8>,
    /// Index for the contents of the CDB.
    index: Vec<(u32, u32)>,
    /// Position in the file where the hash table starts.
    table_start: u32,
    /// How many elements are there in the CDB.
    length: u64,
}

/// A cursor over the `(key, value)` pairs of a CDB, in storage order.
pub struct ItemIterator<'a> {
    reader: &'a Reader,
    pos: u64,
}

impl View for Reader {
    type V = Seq<u8>;

    /// The bytes of the database.
    closed spec fn view(&self) -> Seq<u8> {
        self.file@
    }
}

impl Reader {
    #[verifier::type_invariant]
    spec fn well_formed(self) -> bool {
        &&& self.file@.len() >= HEADER_SIZE
        &&& self.index@ == header_entries(self.file@)
        &&& self.table_start == min_position(self.index@)
        &&& self.length == slot_total(self.index@)
    }

    /// Creates a new `Reader` consuming the provided `file`.
    ///
    /// A file of under 2048 bytes cannot hold a header and is refused. The
    /// header is decoded and nothing else is looked at: the positions and
    /// lengths that the file states are taken as they are.
    pub fn new(file: Vec<u8>) -> (res: Result<Reader, Error>)
        ensures
            file@.len() >= HEADER_SIZE ==> res is Ok && res->Ok_0@ == file@,
            file@.len() < HEADER_SIZE ==> res == Err::<Reader, Error>(Error::CDBTooSmall),
    {
        if file.len() < HEADER_SIZE {
            return Err(Error::CDBTooSmall);
        }
        let mut index: Vec<(u32, u32)> = Vec::new();
        let mut sum: u64 = 0;
        let mut table_start: u32 = u32::MAX;
        let mut b: usize = 0;
        while b < BUCKETS
            invariant
                b <= BUCKETS,
                file@.len() >= HEADER_SIZE,
                index@ == header_entries(file@).take(b as int),
                table_start == min_position(index@),
                sum == slot_total(index@),
                sum <= b * 0x8000_0000,
            decreases BUCKETS - b,
        {
            let position = read_word(file.as_slice(), 8 * b);
            let slots = read_word(file.as_slice(), 8 * b + 4);
            assert(slots >> 1 == slots / 2) by (bit_vector);
            let ghost before = index@;
            index.push((position, slots));
            proof {
                assert(index@.drop_last() == before);
                assert(index@ == header_entries(file@).take(b + 1));
            }
            sum += (slots >> 1) as u64;
            if position < table_start {
                table_start = position;
            }
            b += 1;
        }
        proof {
            assert(index@ == header_entries(file@));
        }
        Ok(Reader { file, index, table_start, length: sum })
    }

    /// How many `(key, value)` pairs are there in this Read Only CDB.
    pub fn len(&self) -> (n: u64)
        ensures
            n == record_count(self@),
    {
        proof {
            use_type_invariant(self);
        }
        self.length
    }

    /// Whether the CDB holds no pair at all.
    pub fn is_empty(&self) -> (empty: bool)
        ensures
            empty == (record_count(self@) == 0),
    {
        self.len() == 0
    }

    /// Return a `Vec` of all the values under the given `key`: those that
    /// lookups of the occurrences 0, 1, 2 and so on give, up to the first
    /// lookup that fails.
    pub fn get(&self, key: &[u8]) -> (values: Vec<Vec<u8>>)
        ensures
            views(values@) == values_from(self@, key@, 0),
    {
        let mut values: Vec<Vec<u8>> = Vec::new();
        let mut i: u32 = 0;
        loop
            invariant
                views(values@) + values_from(self@, key@, i) == values_from(self@, key@, 0),
            ensures
                views(values@) == values_from(self@, key@, 0),
            decreases u32::MAX - i,
        {
            match self.get_from_pos(key, i) {
                Ok(v) => {
                    let ghost before = values@;
                    let ghost found = v@;
                    values.push(v);
                    proof {
                        assert(views(values@) =~= views(before) + seq![found]);
                    }
                    if i == u32::MAX {
                        proof {
                            assert(views(values@) =~= values_from(self@, key@, 0));
                        }
                        break;
                    }
                    proof {
                        assert(views(values@) + values_from(self@, key@, (i + 1) as u32)
                            =~= views(before) + values_from(self@, key@, i));
                    }
                    i += 1;
                },
                Err(_) => {
                    proof {
                        assert(views(values@) =~= values_from(self@, key@, 0));
                    }
                    break;
                },
            }
        }
        values
    }

    /// Return a `Vec` of all the keys in this Read Only CDB.
    ///
    /// Keep in mind that if there're duplicated keys, they will appear
    /// multiple times in the resulting `Vec`.
    pub fn keys(&self) -> (keys: Vec<Vec<u8>>)
        ensures
            views(keys@) == all_keys(self@),
    {
        let ghost end = table_start(self@) as int;
        let ghost key_of = |r: Record| r.0;
        let mut keys: Vec<Vec<u8>> = Vec::new();
        let mut iter = self.into_iter();
        loop
            invariant
                iter.source() == self@,
                end == table_start(self@),
                key_of == |r: Record| r.0,
                views(keys@) + records_from(self@, end, iter.position()).map_values(key_of)
                    == all_keys(self@),
            ensures
                views(keys@) == all_keys(self@),
            decreases vstd::math::max(end - iter.position(), 0),
        {
            let ghost before = keys@;
            let ghost pos = iter.position();
            match iter.next() {
                Some(item) => {
                    let ghost rest = records_from(self@, end, iter.position());
                    keys.push(item.0);
                    proof {
                        lemma_records_from_step(self@, end, pos);
                        assert(views(keys@) =~= views(before) + seq![key_at(self@, pos)]);
                        assert(records_from(self@, end, pos).map_values(key_of) =~= seq![
                            key_at(self@, pos),
                        ] + rest.map_values(key_of));
                        assert(views(keys@) + rest.map_values(key_of) =~= all_keys(self@));
                    }
                },
                None => {
                    proof {
                        lemma_records_from_end(self@, end, pos);
                        assert(views(keys@) =~= all_keys(self@));
                    }
                    break;
                },
            }
        }
        keys
    }

    /// Pull the `value` bytes for the first occurence of the given `key` in
    /// this CDB.
    pub fn get_first(&self, key: &[u8]) -> (res: Result<Vec<u8>, Error>)
        ensures
            res matches Ok(v) ==> lookup(self@, key@, 0) == Ok::<Seq<u8>, Error>(v@),
            res matches Err(e) ==> lookup(self@, key@, 0) == Err::<Seq<u8>, Error>(e),
    {
        self.get_from_pos(key, 0)
    }

    /// Pull the `value` bytes for the `index`st occurence of the given `key`
    /// in this CDB.
    ///
    /// The search walks the hash table of the key from the home slot of its
    /// hash to the first empty slot, and counts the records whose key is
    /// `key`. A slot or a record header that lies past the end of the bytes
    /// is an I/O error; a key or a value that does is cut short there.
    pub fn get_from_pos(&self, key: &[u8], index: u32) -> (res: Result<Vec<u8>, Error>)
        ensures
            res matches Ok(v) ==> lookup(self@, key@, index) == Ok::<Seq<u8>, Error>(v@),
            res matches Err(e) ==> lookup(self@, key@, index) == Err::<Seq<u8>, Error>(e),
    {
        proof {
            use_type_invariant(self);
        }
        let h = hash(key);
        assert(h & 0xff == h % 256) by (bit_vector);
        assert(h >> 8 == h / 256) by (bit_vector);
        let (start, nslots) = self.index[(h & 0xff) as usize];
        if nslots <= index {
            return Err(Error::KeyNotInCDB);
        }
        let first: u32 = (h >> 8) % nslots;
        let len: u64 = self.file.len() as u64;
        let mut counter: u32 = 0;
        let mut j: u32 = 0;
        while j < nslots
            invariant
                j <= nslots,
                first < nslots,
                counter <= index,
                h == spec_hash(key@),
                len == self.file@.len() <= usize::MAX,
                lookup(self@, key@, index) == probe(
                    self.file@,
                    key@,
                    start as int,
                    nslots as int,
                    first as int,
                    j as int,
                    index - counter,
                ),
            decreases nslots - j,
        {
            let turn: u64 = first as u64 + j as u64;
            let slot: u64 = if turn < nslots as u64 { turn } else { turn - nslots as u64 };
            let pos: u64 = start as u64 + 8 * slot;
            if pos + 8 > len {
                return Err(Error::IOError(IoFault::UnexpectedEof));
            }
            let slot_hash = read_word(self.file.as_slice(), pos as usize);
            let record = read_word(self.file.as_slice(), pos as usize + 4);
            if slot_hash == 0 {
                return Err(Error::KeyNotInCDB);
            }
            if slot_hash == h {
                let at: u64 = record as u64;
                if at + 8 > len {
                    return Err(Error::IOError(IoFault::UnexpectedEof));
                }
                let klen = read_word(self.file.as_slice(), at as usize);
                let dlen = read_word(self.file.as_slice(), at as usize + 4);
                if clamped_equals(self.file.as_slice(), at + 8, klen, key) {
                    if counter == index {
                        return Ok(copy_clamped(self.file.as_slice(), at + 8 + klen as u64, dlen));
                    }
                    counter += 1;
                }
            }
            j += 1;
        }
        Err(Error::KeyNotInCDB)
    }

    /// Start an iteration over all the `(key, value)` pairs, in storage
    /// order.
    pub fn into_iter(&self) -> (iter: ItemIterator<'_>)
        ensures
            iter.source() == self@,
            iter.position() == HEADER_SIZE,
    {
        ItemIterator { reader: self, pos: HEADER_SIZE as u64 }
    }

    /// Transform this `Reader` into a `Writer` over the same bytes.
    ///
    /// The slots of the hash tables that point at a record go back into
    /// bucket lists, each list in the order of the positions of its
    /// records, which is the order in which they were put. The bytes are
    /// cut where the tables start: the writer writes the tables anew when
    /// it is finalized. The conversion always succeeds.
    pub fn as_writer(self) -> (res: Result<Writer, Error>)
        ensures
            res matches Ok(w) && w.wf() && !w.is_finalized() && w.bytes() == reopened_bytes(self@)
                && w.buckets() == reopened_lists(self@) && w.buckets().len() == BUCKETS,
    {
        proof {
            use_type_invariant(&self);
        }
        let from: usize = self.table_start as usize;
        let mut file = self.file;
        let ghost data = file@;
        let ghost slots = trailing_slots(data, from as int);
        let mut index: Vec<Vec<Slot>> = Vec::new();
        let mut b: usize = 0;
        while b < BUCKETS
            invariant
                b <= BUCKETS,
                index@.len() == b,
                forall|t: int| 0 <= t < b ==> (#[trigger] index@[t])@ == Seq::<Slot>::empty(),
            decreases BUCKETS - b,
        {
            index.push(Vec::new());
            b += 1;
        }
        assert(lists_view(index@) =~= regroup(slots.take(0)));
        let count: usize = if from < file.len() { (file.len() - from) / 8 } else { 0 };
        let mut i: usize = 0;
        while i < count
            invariant
                i <= count,
                count == slots.len(),
                file@ == data,
                slots == trailing_slots(data, from as int),
                count > 0 ==> from + 8 * count <= data.len(),
                data.len() <= usize::MAX,
                index@.len() == BUCKETS,
                lists_view(index@) == regroup(slots.take(i as int)),
            decreases count - i,
        {
            let h = read_word(file.as_slice(), from + 8 * i);
            let record = read_word(file.as_slice(), from + 8 * i + 4);
            assert(h & 0xff == h % 256) by (bit_vector);
            let ghost before = lists_view(index@);
            proof {
                assert(slots.take(i + 1).drop_last() == slots.take(i as int));
                assert(slots.take(i + 1).last() == (h, record));
            }
            if record != 0 {
                let b: usize = (h & 0xff) as usize;
                let ghost list = index@[b as int]@;
                let mut at: usize = index[b].len();
                while at > 0 && index[b][at - 1].1 > record
                    invariant
                        b < index@.len(),
                        index@[b as int]@ == list,
                        at <= list.len(),
                        forall|t: int| at <= t < list.len() ==> (#[trigger] list[t]).1 > record,
                    decreases at,
                {
                    at -= 1;
                }
                index[b].insert(at, (h, record));
                proof {
                    lemma_insert_by_position_at(list, (h, record), at as int);
                    assert(lists_view(index@) =~= file_entry(before, (h, record)));
                }
            }
            i += 1;
        }
        proof {
            assert(slots.take(count as int) == slots);
        }
        resize_bytes(&mut file, from);
        Writer::new_with_index(file, index)
    }

    /// Gives the bytes of the database back.
    pub fn into_bytes(self) -> (file: Vec<u8>)
        ensures
            file@ == self@,
            file@.len() >= HEADER_SIZE,
    {
        proof {
            use_type_invariant(&self);
        }
        self.file
    }
}

impl<'a> ItemIterator<'a> {
    #[verifier::type_invariant]
    spec fn bounded(self) -> bool {
        self.pos <= 0x4_0000_0000
    }

    /// The bytes that the cursor reads.
    pub closed spec fn source(&self) -> Seq<u8> {
        self.reader@
    }

    /// The byte offset at which the next record is read.
    pub closed spec fn position(&self) -> int {
        self.pos as int
    }

    /// Fetch the next (`key`, `value`) pair, if any.
    ///
    /// There is none once the cursor has reached the hash tables. The
    /// cursor moves on by what the two length fields of the record state;
    /// bytes past the end of the database read as zero in a length field and
    /// are left out of a key or a value.
    pub fn next(&mut self) -> (item: Option<(Vec<u8>, Vec<u8>)>)
        ensures
            final(self).source() == old(self).source(),
            old(self).position() >= table_start(old(self).source()) ==> {
                &&& item is None
                &&& final(self).position() == old(self).position()
            },
            old(self).position() < table_start(old(self).source()) ==> {
                &&& item matches Some((k, v))
                &&& k@ == key_at(old(self).source(), old(self).position())
                &&& v@ == value_at(old(self).source(), old(self).position())
                &&& final(self).position() == record_end(old(self).source(), old(self).position())
            },
    {
        proof {
            use_type_invariant(&*self);
            use_type_invariant(self.reader);
        }
        if self.pos >= self.reader.table_start as u64 {
            return None;
        }
        let data = self.reader.file.as_slice();
        let klen = read_word_padded(data, self.pos);
        let dlen = read_word_padded(data, self.pos + 4);
        let key = copy_clamped(data, self.pos + 8, klen);
        let value = copy_clamped(data, self.pos + 8 + klen as u64, dlen);
        self.pos = self.pos + 8 + klen as u64 + dlen as u64;
        Some((key, value))
    }
}

} // verus!
