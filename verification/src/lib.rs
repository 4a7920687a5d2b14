//! Manipulate [DJB's Constant Database](http://cr.yp.to/cdb.html) files. These
//! are 2 level disk-based hash tables that efficiently handle thousands of
//! keys, while remaining space-efficient.
//!
//! A cdb is an associative array: it maps strings (`keys`) to strings
//! (`data`). It holds 256 pointers to linearly probed open hash tables, and
//! the hash tables hold pointers to `(key, data)` pairs:
//!
//! ```text
//! +----------------+---------+-------+-------+-----+---------+
//! | p0 p1 ... p255 | records | hash0 | hash1 | ... | hash255 |
//! +----------------+---------+-------+-------+-----+---------+
//! ```
//!
//! Each of the 256 initial pointers states a position and a length: where
//! the hash table starts, and how many slots it has. Records are stored
//! sequentially, without special alignment; a record states a key length, a
//! data length, the key, and the data. Each hash table slot states a hash
//! value and a byte position. Positions, lengths, and hash values are 32-bit
//! quantities, stored in little-endian form in 4 bytes. Thus a cdb must fit
//! into 4 gigabytes.
//!
//! The library works on the bytes of a database in memory: reading a file
//! into a `Vec<u8>` and writing one out is left to the caller.
//!
//! # Example
//!
//! To write a CDB and read it back:
//!
//! ```
//! use galvanize::{Reader, Writer};
//!
//! let mut cdb_writer = Writer::new(Vec::new()).unwrap();
//! cdb_writer.put("key".as_bytes(), "value".as_bytes()).unwrap();
//!
//! // Write out the hash tables and turn the writer into a reader.
//! let cdb_reader = cdb_writer.as_reader().unwrap();
//! let stored_vals = cdb_reader.get("key".as_bytes());
//! assert_eq!(stored_vals.len(), 1);
//! assert_eq!(&stored_vals[0][..], "value".as_bytes());
//!
//! // The CDB contains only one entry:
//! assert_eq!(cdb_reader.len(), 1);
//!
//! // Accessing a key that isn't in the CDB:
//! assert_eq!(cdb_reader.get("non_existing_key".as_bytes()).len(), 0);
//! assert!(cdb_reader.get_first("non_existing_key".as_bytes()).is_err());
//! ```
//!
//! # What is proved
//!
//! Every function states in its contract what it returns, over the bytes of
//! the database ([`layout`], [`image`]). On top of the contracts, [`laws`]
//! shows that a database that a writer built from nothing gives back what
//! was put, and [`reopen`] what a database gives that was opened again as a
//! writer and given more records.
pub mod helpers;
pub mod history;
pub mod image;
pub mod laws;
pub mod layout;
pub mod ordering;
pub mod probing;
pub mod reader;
pub mod reopen;
pub mod search;
pub mod tables;
pub mod types;
pub mod writer;

pub use reader::{ItemIterator, Reader};
pub use types::{Error, IoFault};
pub use writer::Writer;
