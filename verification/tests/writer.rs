use galvanize::helpers::hash;
use galvanize::{Error, IoFault, Reader, Writer};

/// 256 header entries as bytes.
fn header(entries: &[(u32, u32)]) -> Vec<u8> {
    assert_eq!(entries.len(), 256);
    let mut bytes = Vec::new();
    for entry in entries {
        bytes.extend_from_slice(&entry.0.to_le_bytes());
        bytes.extend_from_slice(&entry.1.to_le_bytes());
    }
    bytes
}

fn slots(entries: &[(u32, u32)]) -> Vec<u8> {
    let mut bytes = Vec::new();
    for entry in entries {
        bytes.extend_from_slice(&entry.0.to_le_bytes());
        bytes.extend_from_slice(&entry.1.to_le_bytes());
    }
    bytes
}

#[test]
fn new_writer_starts_with_a_zero_header() {
    let writer = Writer::new(Vec::new()).unwrap();
    assert_eq!(writer.into_bytes(), vec![0u8; 2048]);
}

#[test]
fn new_writer_zeroes_only_the_header() {
    let writer = Writer::new(vec![7u8; 3000]).unwrap();
    let bytes = writer.into_bytes();
    assert_eq!(bytes.len(), 3000);
    assert_eq!(&bytes[..2048], &vec![0u8; 2048][..]);
    assert_eq!(&bytes[2048..], &vec![7u8; 952][..]);
}

#[test]
fn new_writer_grows_a_short_file_to_a_header() {
    let writer = Writer::new(vec![7u8; 10]).unwrap();
    assert_eq!(writer.into_bytes(), vec![0u8; 2048]);
}

#[test]
fn put_appends_lengths_key_and_value() {
    let mut writer = Writer::new(Vec::new()).unwrap();
    assert_eq!(writer.put("key".as_bytes(), "value".as_bytes()), Ok(()));
    let bytes = writer.into_bytes();
    assert_eq!(bytes.len(), 2064);
    assert_eq!(&bytes[..2048], &vec![0u8; 2048][..]);
    assert_eq!(
        &bytes[2048..],
        &[3, 0, 0, 0, 5, 0, 0, 0, 107, 101, 121, 118, 97, 108, 117, 101]
    );
}

#[test]
fn put_takes_an_empty_key_and_an_empty_value() {
    let mut writer = Writer::new(Vec::new()).unwrap();
    assert_eq!(writer.put(&[], &[]), Ok(()));
    assert_eq!(writer.put(&[], "x".as_bytes()), Ok(()));
    let reader = writer.as_reader().unwrap();
    assert_eq!(reader.len(), 2);
    assert_eq!(reader.get(&[]), vec![vec![], vec![120u8]]);
    assert_eq!(reader.keys(), vec![Vec::<u8>::new(), Vec::<u8>::new()]);
}

#[test]
fn finalize_of_nothing_writes_an_empty_table_for_each_bucket() {
    let mut writer = Writer::new(Vec::new()).unwrap();
    assert_eq!(writer.finalize(), Ok(()));
    assert_eq!(writer.into_bytes(), header(&[(2048, 0); 256]));
}

#[test]
fn finalize_writes_tables_and_header() {
    let mut writer = Writer::new(Vec::new()).unwrap();
    writer.put("key".as_bytes(), "value".as_bytes()).unwrap();
    assert_eq!(writer.finalize(), Ok(()));
    let bytes = writer.into_bytes();

    // The hash of "key" is 193424690: bucket 50, and of the two slots the
    // second.
    assert_eq!(hash("key".as_bytes()) & 0xff, 50);
    assert_eq!((hash("key".as_bytes()) >> 8) % 2, 1);
    let mut entries = vec![(2064u32, 0u32); 256];
    entries[50] = (2064, 2);
    for entry in entries.iter_mut().skip(51) {
        *entry = (2080, 0);
    }
    let mut expected = header(&entries);
    expected.extend_from_slice(&[3, 0, 0, 0, 5, 0, 0, 0]);
    expected.extend_from_slice("key".as_bytes());
    expected.extend_from_slice("value".as_bytes());
    expected.extend_from_slice(&slots(&[(0, 0), (193424690, 2048)]));
    assert_eq!(bytes.len(), 2080);
    assert_eq!(bytes, expected);
}

#[test]
fn finalize_probes_on_from_a_taken_slot_and_wraps() {
    // Both keys hash to 5860165: bucket 69, and of four slots the last.
    let mut writer = Writer::new(Vec::new()).unwrap();
    writer.put(&[8, 8], "x".as_bytes()).unwrap();
    writer.put(&[9, 105], "y".as_bytes()).unwrap();
    writer.finalize().unwrap();
    let bytes = writer.into_bytes();
    assert_eq!(bytes.len(), 2102);
    assert_eq!(&bytes[8 * 69..8 * 69 + 8], &slots(&[(2070, 4)])[..]);
    assert_eq!(&bytes[..8], &slots(&[(2070, 0)])[..]);
    assert_eq!(&bytes[8 * 255..8 * 255 + 8], &slots(&[(2102, 0)])[..]);
    assert_eq!(
        &bytes[2070..],
        &slots(&[(5860165, 2059), (0, 0), (0, 0), (5860165, 2048)])[..]
    );
}

#[test]
fn finalize_keeps_entries_with_different_hashes_apart() {
    // "5=" and "H " share bucket and home slot, with different hashes.
    assert_eq!(hash("5=".as_bytes()), 5859245);
    assert_eq!(hash("H ".as_bytes()), 5862317);
    let mut writer = Writer::new(Vec::new()).unwrap();
    writer.put("5=".as_bytes(), "first".as_bytes()).unwrap();
    writer.put("H ".as_bytes(), "second".as_bytes()).unwrap();
    let reader = writer.as_reader().unwrap();
    assert_eq!(reader.get_first("5=".as_bytes()), Ok("first".as_bytes().to_vec()));
    assert_eq!(reader.get_first("H ".as_bytes()), Ok("second".as_bytes().to_vec()));
    assert_eq!(reader.get_from_pos("5=".as_bytes(), 1), Err(Error::KeyNotInCDB));
    assert_eq!(reader.get_from_pos("H ".as_bytes(), 1), Err(Error::KeyNotInCDB));
}

#[test]
fn finalize_twice_changes_nothing() {
    let mut writer = Writer::new(Vec::new()).unwrap();
    writer.put("key".as_bytes(), "value".as_bytes()).unwrap();
    assert_eq!(writer.finalize(), Ok(()));
    assert_eq!(writer.finalize(), Ok(()));
    let bytes = writer.into_bytes();
    assert_eq!(bytes.len(), 2080);
    let reader = Reader::new(bytes).unwrap();
    assert_eq!(reader.len(), 1);
}

#[test]
fn put_after_finalize_is_refused() {
    let mut writer = Writer::new(Vec::new()).unwrap();
    writer.put("key".as_bytes(), "value".as_bytes()).unwrap();
    writer.finalize().unwrap();
    assert_eq!(
        writer.put("more".as_bytes(), "data".as_bytes()),
        Err(Error::IOError(IoFault::WriterClosed))
    );
    assert_eq!(writer.into_bytes().len(), 2080);
}

#[test]
fn as_reader_after_finalize_reads_the_same_bytes() {
    let mut writer = Writer::new(Vec::new()).unwrap();
    writer.put("key".as_bytes(), "value".as_bytes()).unwrap();
    writer.finalize().unwrap();
    let reader = writer.as_reader().unwrap();
    assert_eq!(reader.len(), 1);
    assert_eq!(reader.get_first("key".as_bytes()), Ok("value".as_bytes().to_vec()));
    assert_eq!(reader.into_bytes().len(), 2080);
}

#[test]
fn new_with_index_starts_from_the_given_lists() {
    let mut file = vec![0u8; 2048];
    file.extend_from_slice(&[3, 0, 0, 0, 5, 0, 0, 0]);
    file.extend_from_slice("key".as_bytes());
    file.extend_from_slice("value".as_bytes());
    let mut index: Vec<Vec<(u32, u32)>> = vec![Vec::new(); 256];
    index[50].push((193424690, 2048));
    let mut writer = Writer::new_with_index(file, index).unwrap();
    writer.put("hi".as_bytes(), "asdf".as_bytes()).unwrap();
    let reader = writer.as_reader().unwrap();
    assert_eq!(reader.len(), 2);
    assert_eq!(reader.get_first("key".as_bytes()), Ok("value".as_bytes().to_vec()));
    assert_eq!(reader.get_first("hi".as_bytes()), Ok("asdf".as_bytes().to_vec()));
}

#[test]
fn new_with_index_trusts_the_lists() {
    // An entry that points at no record is written out as it is.
    let mut index: Vec<Vec<(u32, u32)>> = vec![Vec::new(); 256];
    index[50].push((193424690, 5000));
    let writer = Writer::new_with_index(vec![0u8; 2048], index).unwrap();
    let reader = writer.as_reader().unwrap();
    assert_eq!(reader.len(), 1);
    assert_eq!(
        reader.get_first("key".as_bytes()),
        Err(Error::IOError(IoFault::UnexpectedEof))
    );
}

#[test]
fn number_of_puts_is_the_length() {
    for n in [0u32, 1, 2, 17, 300, 1000] {
        let mut writer = Writer::new(Vec::new()).unwrap();
        for i in 0..n {
            writer.put(&(i % 7).to_le_bytes(), &i.to_le_bytes()).unwrap();
        }
        let reader = writer.as_reader().unwrap();
        assert_eq!(reader.len(), n as u64);
        assert_eq!(reader.is_empty(), n == 0);
    }
}
