//! This module allows you to write to a CDB.
use crate::helpers::{hash, pack, spec_hash};
use crate::image::{
    add_entry, append_bytes, append_pairs, blank_header, directory, empty_buckets, finished,
    lemma_pairs_bytes_add, lemma_slots_before_grows, lists_view, overwrite_front, pairs_bytes,
    record_bytes, resize_bytes, slots_before, tables_before, tables_fit, write_front,
};
use crate::layout::{BUCKETS, HEADER_SIZE};
use crate::reader::Reader;
use crate::tables::{build_table, Slot};
use crate::types::{Error, IoFault};
use vstd::prelude::*;

verus! {

/// Allows you to create a (or append to) CDB held in memory.
///
/// A writer is building until it is finalized: `put` appends records, and
/// `finalize` writes the hash tables and the header, once.
pub struct Writer {
    /// The bytes written so far.
    file: Vec<u8>,
    /// Working hash table for the contents of the CDB.
    index: Vec<Vec<Slot>>,
    /// Whether the hash tables have been written.
    finalized: bool,
}

impl Writer {
    /// Whether the writer is in order: it has a list for each bucket, and
    /// once finalized it holds a header.
    pub closed spec fn wf(&self) -> bool {
        &&& self.index@.len() == BUCKETS
        &&& self.finalized ==> self.file@.len() >= HEADER_SIZE
    }

    /// The bytes written so far.
    pub closed spec fn bytes(&self) -> Seq<u8> {
        self.file@
    }

    /// The bucket lists: for each bucket the `(hash, position)` pairs of its
    /// records, in the order in which they were put.
    pub closed spec fn buckets(&self) -> Seq<Seq<Slot>> {
        lists_view(self.index@)
    }

    /// Whether the hash tables have been written, after which the writer
    /// takes no more records.
    pub closed spec fn is_finalized(&self) -> bool {
        self.finalized
    }

    /// A writer that is in order has a list for each of the 256 buckets,
    /// and once it is finalized its bytes hold a header.
    pub proof fn lemma_wf(&self)
        requires
            self.wf(),
        ensures
            self.buckets().len() == BUCKETS,
            self.is_finalized() ==> self.bytes().len() >= HEADER_SIZE,
    {
    }

    /// Creates a new `Writer` consuming the provided `file`.
    ///
    /// The first 2048 bytes of the file are zeroed, to be filled in when the
    /// writer is finalized.
    pub fn new(file: Vec<u8>) -> (res: Result<Writer, Error>)
        ensures
            res matches Ok(w) && w.wf() && w.bytes() == overwrite_front(file@, blank_header())
                && w.buckets() == empty_buckets() && w.buckets().len() == BUCKETS
                && !w.is_finalized(),
    {
        let mut file = file;
        let mut header: Vec<u8> = Vec::new();
        resize_bytes(&mut header, HEADER_SIZE);
        assert(header@ =~= blank_header());
        write_front(&mut file, &header);
        let mut index: Vec<Vec<Slot>> = Vec::new();
        let mut b: usize = 0;
        while b < BUCKETS
            invariant
                b <= BUCKETS,
                index@.len() == b,
                forall|t: int| 0 <= t < b ==> (#[trigger] index@[t])@ == Seq::<Slot>::empty(),
            decreases BUCKETS - b,
        {
            index.push(Vec::new());
            b += 1;
        }
        let writer = Writer { file, index, finalized: false };
        assert(writer.buckets() =~= empty_buckets());
        Ok(writer)
    }

    /// Creates a `Writer` over `file` that starts from the bucket lists in
    /// `index`, one list for each of the 256 buckets.
    pub fn new_with_index(file: Vec<u8>, index: Vec<Vec<Slot>>) -> (res: Result<Writer, Error>)
        requires
            index@.len() == BUCKETS,
        ensures
            res matches Ok(w) && w.wf() && w.bytes() == file@ && w.buckets() == lists_view(index@)
                && w.buckets().len() == BUCKETS && !w.is_finalized(),
    {
        Ok(Writer { file, index, finalized: false })
    }

    /// Write `value` for `key` into this CDB.
    ///
    /// The record goes to the end of the bytes, and its hash and position to
    /// the end of its bucket list. A finalized writer takes no record, nor
    /// does one whose bytes would grow past what 32 bits address.
    pub fn put(&mut self, key: &[u8], value: &[u8]) -> (res: Result<(), Error>)
        requires
            old(self).wf(),
        ensures
            final(self).wf(),
            final(self).buckets().len() == BUCKETS,
            final(self).is_finalized() == old(self).is_finalized(),
            old(self).is_finalized() ==> res == Err::<(), Error>(
                Error::IOError(IoFault::WriterClosed),
            ),
            !old(self).is_finalized() && old(self).bytes().len() + 8 + key@.len() + value@.len()
                > u32::MAX ==> res == Err::<(), Error>(Error::IOError(IoFault::FileTooLarge)),
            !old(self).is_finalized() && old(self).bytes().len() + 8 + key@.len() + value@.len()
                <= u32::MAX ==> res is Ok,
            res is Err ==> final(self).bytes() == old(self).bytes() && final(self).buckets() == old(
                self,
            ).buckets(),
            res is Ok ==> final(self).bytes() == old(self).bytes() + record_bytes(key@, value@)
                && final(self).buckets() == add_entry(
                old(self).buckets(),
                (spec_hash(key@), old(self).bytes().len() as u32),
            ),
    {
        if self.finalized {
            return Err(Error::IOError(IoFault::WriterClosed));
        }
        let pos: u64 = self.file.len() as u64;
        let klen: u64 = key.len() as u64;
        let vlen: u64 = value.len() as u64;
        if pos > 0xffff_ffff || klen > 0xffff_ffff || vlen > 0xffff_ffff || pos + 8 + klen + vlen
            > 0xffff_ffff {
            return Err(Error::IOError(IoFault::FileTooLarge));
        }
        append_bytes(&mut self.file, pack(klen as u32).as_slice());
        append_bytes(&mut self.file, pack(vlen as u32).as_slice());
        append_bytes(&mut self.file, key);
        append_bytes(&mut self.file, value);
        let h = hash(key);
        assert(h & 0xff == h % 256) by (bit_vector);
        let ghost before = self.buckets();
        self.index[(h & 0xff) as usize].push((h, pos as u32));
        proof {
            assert(self.buckets() =~= add_entry(before, (h, pos as u32)));
        }
        Ok(())
    }

    /// Write out the hash tables after the records, and the header in front.
    ///
    /// This happens once: on a writer that is finalized already the call
    /// changes nothing.
    pub fn finalize(&mut self) -> (res: Result<(), Error>)
        requires
            old(self).wf(),
        ensures
            final(self).wf(),
            final(self).buckets().len() == BUCKETS,
            final(self).buckets() == old(self).buckets(),
            old(self).is_finalized() ==> res is Ok && final(self).bytes() == old(self).bytes()
                && final(self).is_finalized(),
            !old(self).is_finalized() && tables_fit(old(self).bytes(), old(self).buckets()) ==> {
                &&& res is Ok
                &&& final(self).is_finalized()
                &&& final(self).bytes() == finished(old(self).bytes(), old(self).buckets())
            },
            !old(self).is_finalized() && !tables_fit(old(self).bytes(), old(self).buckets()) ==> {
                &&& res == Err::<(), Error>(Error::IOError(IoFault::FileTooLarge))
                &&& !final(self).is_finalized()
                &&& final(self).bytes() == old(self).bytes()
            },
    {
        if self.finalized {
            return Ok(());
        }
        let ghost buckets = self.buckets();
        let ghost start = self.file@;
        let base: u64 = self.file.len() as u64;
        if base > 0xffff_ffff {
            proof {
                lemma_slots_before_grows(buckets, 0, BUCKETS as int);
            }
            return Err(Error::IOError(IoFault::FileTooLarge));
        }
        let mut slots: u64 = 0;
        let mut b: usize = 0;
        while b < BUCKETS
            invariant
                b <= BUCKETS,
                self.index@.len() == BUCKETS,
                !self.finalized,
                buckets == self.buckets(),
                buckets == old(self).buckets(),
                self.file@ == old(self).bytes(),
                base == self.file@.len(),
                slots == slots_before(buckets, b as int),
                base + 8 * slots <= u32::MAX,
            decreases BUCKETS - b,
        {
            let n: usize = self.index[b].len();
            proof {
                lemma_slots_before_grows(buckets, b + 1, BUCKETS as int);
                lemma_slots_before_grows(buckets, 0, b as int);
            }
            if n > 0x1000_0000 {
                return Err(Error::IOError(IoFault::FileTooLarge));
            }
            slots = slots + 2 * (n as u64);
            if base + 8 * slots > 0xffff_ffff {
                return Err(Error::IOError(IoFault::FileTooLarge));
            }
            b += 1;
        }
        let mut dir: Vec<Slot> = Vec::new();
        b = 0;
        while b < BUCKETS
            invariant
                b <= BUCKETS,
                self.index@.len() == BUCKETS,
                !self.finalized,
                buckets == self.buckets(),
                buckets == old(self).buckets(),
                start == old(self).bytes(),
                base == start.len(),
                tables_fit(start, buckets),
                self.file@ == start + pairs_bytes(tables_before(buckets, b as int)),
                self.file@.len() == base + 8 * slots_before(buckets, b as int),
                dir@ == directory(base as int, buckets).take(b as int),
            decreases BUCKETS - b,
        {
            proof {
                lemma_slots_before_grows(buckets, b + 1, BUCKETS as int);
                lemma_slots_before_grows(buckets, 0, b as int);
            }
            let table = build_table(&self.index[b]);
            dir.push((self.file.len() as u32, table.len() as u32));
            append_pairs(&mut self.file, &table);
            proof {
                lemma_pairs_bytes_add(tables_before(buckets, b as int), table@);
                assert(self.file@ =~= start + pairs_bytes(tables_before(buckets, b + 1)));
                assert(dir@ =~= directory(base as int, buckets).take(b + 1));
            }
            b += 1;
        }
        let mut header: Vec<u8> = Vec::new();
        append_pairs(&mut header, &dir);
        write_front(&mut self.file, &header);
        self.finalized = true;
        proof {
            assert(dir@ == directory(base as int, buckets));
            assert(header@ =~= pairs_bytes(dir@));
        }
        Ok(())
    }

    /// Transform this `Writer` into a `Reader` over the same bytes.
    ///
    /// The `Writer` writes out the hash tables first, unless it has done so
    /// before.
    pub fn as_reader(self) -> (res: Result<Reader, Error>)
        requires
            self.wf(),
        ensures
            self.is_finalized() ==> res is Ok && res->Ok_0@ == self.bytes(),
            !self.is_finalized() && tables_fit(self.bytes(), self.buckets()) ==> res is Ok
                && res->Ok_0@ == finished(self.bytes(), self.buckets()),
            !self.is_finalized() && !tables_fit(self.bytes(), self.buckets()) ==> res is Err
                && res->Err_0 == Error::IOError(IoFault::FileTooLarge),
    {
        let mut writer = self;
        match writer.finalize() {
            Ok(()) => Reader::new(writer.file),
            Err(e) => Err(e),
        }
    }

    /// Gives the bytes of the database back, as they are.
    pub fn into_bytes(self) -> (file: Vec<u8>)
        ensures
            file@ == self.bytes(),
    {
        self.file
    }
}

} // verus!
