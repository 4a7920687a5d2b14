use galvanize::{Error, IoFault, Reader, Writer};

fn build(records: &[(&[u8], &[u8])]) -> Vec<u8> {
    let mut writer = Writer::new(Vec::new()).unwrap();
    for record in records {
        writer.put(record.0, record.1).unwrap();
    }
    writer.finalize().unwrap();
    writer.into_bytes()
}

fn collect(reader: &Reader) -> Vec<(Vec<u8>, Vec<u8>)> {
    let mut items = Vec::new();
    let mut iter = reader.into_iter();
    while let Some(item) = iter.next() {
        items.push(item);
    }
    items
}

#[test]
fn reader_refuses_a_file_without_a_whole_header() {
    assert_eq!(Reader::new(Vec::new()).err(), Some(Error::CDBTooSmall));
    assert_eq!(Reader::new(vec![0u8; 2047]).err(), Some(Error::CDBTooSmall));
    assert!(Reader::new(vec![0u8; 2048]).is_ok());
}

#[test]
fn reader_of_a_bare_header_is_empty() {
    let reader = Reader::new(vec![0u8; 2048]).unwrap();
    assert_eq!(reader.len(), 0);
    assert!(reader.is_empty());
    assert_eq!(reader.keys(), Vec::<Vec<u8>>::new());
    assert_eq!(reader.get("key".as_bytes()), Vec::<Vec<u8>>::new());
    assert_eq!(reader.get_first("key".as_bytes()), Err(Error::KeyNotInCDB));
    assert_eq!(reader.into_iter().next(), None);
}

#[test]
fn reader_gives_its_bytes_back() {
    let file = build(&[("key".as_bytes(), "value".as_bytes())]);
    let reader = Reader::new(file.clone()).unwrap();
    assert_eq!(reader.into_bytes(), file);
}

#[test]
fn len_is_half_the_slots_of_each_table() {
    let mut file = vec![0u8; 2048];
    // Table positions 2048 everywhere; 5 slots, 4 slots, 1 slot.
    for b in 0..256 {
        file[8 * b..8 * b + 4].copy_from_slice(&2048u32.to_le_bytes());
    }
    file[4..8].copy_from_slice(&5u32.to_le_bytes());
    file[12..16].copy_from_slice(&4u32.to_le_bytes());
    file[2044..2048].copy_from_slice(&1u32.to_le_bytes());
    let reader = Reader::new(file).unwrap();
    assert_eq!(reader.len(), 4);
    assert!(!reader.is_empty());
}

#[test]
fn len_does_not_overflow() {
    let file = vec![255u8; 2048];
    let reader = Reader::new(file).unwrap();
    assert_eq!(reader.len(), 256 * 0x7fff_ffff);
    // The tables would start past the end of the file: every record that the
    // iteration gives is read from nothing.
    assert_eq!(reader.into_iter().next(), Some((vec![], vec![])));
}

#[test]
fn round_trip_of_three_records() {
    let file = build(&[
        ("key".as_bytes(), "value".as_bytes()),
        ("another key".as_bytes(), "value field".as_bytes()),
        ("hi".as_bytes(), "asdf".as_bytes()),
    ]);
    let reader = Reader::new(file).unwrap();
    assert_eq!(reader.get_first("key".as_bytes()), Ok("value".as_bytes().to_vec()));
    assert_eq!(
        reader.get_first("another key".as_bytes()),
        Ok("value field".as_bytes().to_vec())
    );
    assert_eq!(reader.get_first("hi".as_bytes()), Ok("asdf".as_bytes().to_vec()));
    assert_eq!(reader.len(), 3);
}

#[test]
fn lookup_of_a_single_record() {
    let reader = Reader::new(build(&[("key".as_bytes(), "value".as_bytes())])).unwrap();
    assert_eq!(reader.get_first("key".as_bytes()), Ok("value".as_bytes().to_vec()));
    assert_eq!(reader.get_from_pos("key".as_bytes(), 0), Ok("value".as_bytes().to_vec()));
    assert_eq!(reader.get_from_pos("key".as_bytes(), 1), Err(Error::KeyNotInCDB));
}

#[test]
fn lookup_finds_duplicates_in_the_order_of_the_puts() {
    let reader = Reader::new(build(&[
        ("key".as_bytes(), "v0".as_bytes()),
        ("key".as_bytes(), "v1".as_bytes()),
        ("other".as_bytes(), "x".as_bytes()),
        ("key".as_bytes(), "v2".as_bytes()),
    ]))
    .unwrap();
    assert_eq!(reader.get_from_pos("key".as_bytes(), 0), Ok("v0".as_bytes().to_vec()));
    assert_eq!(reader.get_from_pos("key".as_bytes(), 1), Ok("v1".as_bytes().to_vec()));
    assert_eq!(reader.get_from_pos("key".as_bytes(), 2), Ok("v2".as_bytes().to_vec()));
    assert_eq!(reader.get_from_pos("key".as_bytes(), 3), Err(Error::KeyNotInCDB));
    assert_eq!(reader.get_from_pos("key".as_bytes(), 4), Err(Error::KeyNotInCDB));
    assert_eq!(reader.get_from_pos("key".as_bytes(), 6), Err(Error::KeyNotInCDB));
    assert_eq!(reader.get_from_pos("key".as_bytes(), u32::MAX), Err(Error::KeyNotInCDB));
    assert_eq!(reader.get_from_pos("other".as_bytes(), 0), Ok("x".as_bytes().to_vec()));
    assert_eq!(reader.get_from_pos("other".as_bytes(), 1), Err(Error::KeyNotInCDB));
}

#[test]
fn get_gives_the_values_that_lookups_give() {
    let reader = Reader::new(build(&[
        ("key".as_bytes(), "v0".as_bytes()),
        ("key".as_bytes(), "v1".as_bytes()),
        ("other".as_bytes(), "x".as_bytes()),
        ("key".as_bytes(), "v2".as_bytes()),
    ]))
    .unwrap();
    let values = reader.get("key".as_bytes());
    assert_eq!(values, vec!["v0".as_bytes(), "v1".as_bytes(), "v2".as_bytes()]);
    for (i, value) in values.iter().enumerate() {
        assert_eq!(reader.get_from_pos("key".as_bytes(), i as u32).as_ref(), Ok(value));
    }
    assert!(reader.get_from_pos("key".as_bytes(), values.len() as u32).is_err());
    assert_eq!(reader.get("other".as_bytes()), vec!["x".as_bytes()]);
    assert_eq!(reader.get("absent".as_bytes()), Vec::<Vec<u8>>::new());
}

#[test]
fn lookup_of_an_absent_key_fails() {
    let reader = Reader::new(build(&[
        ("key".as_bytes(), "value".as_bytes()),
        ("hi".as_bytes(), "asdf".as_bytes()),
    ]))
    .unwrap();
    assert_eq!(reader.get_first("absent".as_bytes()), Err(Error::KeyNotInCDB));
    assert_eq!(reader.get_first("ke".as_bytes()), Err(Error::KeyNotInCDB));
    assert_eq!(reader.get_first("keys".as_bytes()), Err(Error::KeyNotInCDB));
    assert_eq!(reader.get_first(&[]), Err(Error::KeyNotInCDB));
    assert_eq!(reader.get_from_pos("absent".as_bytes(), 3), Err(Error::KeyNotInCDB));
}

#[test]
fn lookup_tells_keys_with_one_hash_apart() {
    // The two keys have the same hash.
    let reader = Reader::new(build(&[(&[8, 8], "x".as_bytes()), (&[9, 105], "y".as_bytes())]))
        .unwrap();
    assert_eq!(reader.get(&[8, 8]), vec!["x".as_bytes()]);
    assert_eq!(reader.get(&[9, 105]), vec!["y".as_bytes()]);
    assert_eq!(reader.get_from_pos(&[8, 8], 1), Err(Error::KeyNotInCDB));
    assert_eq!(reader.get_from_pos(&[9, 105], 1), Err(Error::KeyNotInCDB));
}

#[test]
fn lookup_takes_a_slot_with_hash_zero_for_empty() {
    // The hash of this key is zero, which in a slot marks it as empty: the
    // record is stored and counted, and no lookup finds it.
    let key = "7bafhhw".as_bytes();
    let reader = Reader::new(build(&[
        (key, "value".as_bytes()),
        ("key".as_bytes(), "other".as_bytes()),
    ]))
    .unwrap();
    assert_eq!(reader.len(), 2);
    assert_eq!(reader.keys(), vec![key, "key".as_bytes()]);
    assert_eq!(reader.get_first(key), Err(Error::KeyNotInCDB));
    assert_eq!(reader.get(key), Vec::<Vec<u8>>::new());
    assert_eq!(reader.get_first("key".as_bytes()), Ok("other".as_bytes().to_vec()));
}

#[test]
fn lookup_past_the_end_of_the_file_is_an_io_error() {
    let mut file = build(&[("key".as_bytes(), "value".as_bytes())]);
    // The slot of "key" is the last eight bytes.
    file.truncate(2072);
    let reader = Reader::new(file).unwrap();
    assert_eq!(
        reader.get_first("key".as_bytes()),
        Err(Error::IOError(IoFault::UnexpectedEof))
    );
}

#[test]
fn lookup_of_a_record_past_the_end_of_the_file_is_an_io_error() {
    let mut file = build(&[("key".as_bytes(), "value".as_bytes())]);
    // Let the slot point one byte too far for a whole record header.
    let at = file.len() as u32 - 7;
    file[2076..2080].copy_from_slice(&at.to_le_bytes());
    let reader = Reader::new(file).unwrap();
    assert_eq!(
        reader.get_first("key".as_bytes()),
        Err(Error::IOError(IoFault::UnexpectedEof))
    );
}

#[test]
fn lookup_reads_no_further_than_the_file() {
    let mut file = build(&[("key".as_bytes(), "value".as_bytes())]);
    // Cut the tables off, append a record whose value claims nine bytes and
    // has two, and let a table of one slot point at it.
    file.truncate(2064);
    file.extend_from_slice(&193424690u32.to_le_bytes());
    file.extend_from_slice(&2072u32.to_le_bytes());
    file.extend_from_slice(&[3, 0, 0, 0, 9, 0, 0, 0]);
    file.extend_from_slice("key".as_bytes());
    file.extend_from_slice("va".as_bytes());
    file[8 * 50..8 * 50 + 4].copy_from_slice(&2064u32.to_le_bytes());
    file[8 * 50 + 4..8 * 50 + 8].copy_from_slice(&1u32.to_le_bytes());
    let reader = Reader::new(file).unwrap();
    assert_eq!(reader.get_first("key".as_bytes()), Ok("va".as_bytes().to_vec()));
}

#[test]
fn iteration_gives_the_records_in_the_order_of_the_puts() {
    let records: [(&[u8], &[u8]); 4] = [
        ("key".as_bytes(), "v0".as_bytes()),
        ("".as_bytes(), "".as_bytes()),
        ("other".as_bytes(), "x".as_bytes()),
        ("key".as_bytes(), "v2".as_bytes()),
    ];
    let reader = Reader::new(build(&records)).unwrap();
    let items = collect(&reader);
    assert_eq!(items.len() as u64, reader.len());
    assert_eq!(items.len(), 4);
    for (item, record) in items.iter().zip(records.iter()) {
        assert_eq!(&item.0[..], record.0);
        assert_eq!(&item.1[..], record.1);
    }
    // Once more, from the start: the same again.
    assert_eq!(collect(&reader), items);
}

#[test]
fn iteration_ends_where_the_tables_start() {
    let reader = Reader::new(build(&[("key".as_bytes(), "value".as_bytes())])).unwrap();
    let mut iter = reader.into_iter();
    assert_eq!(
        iter.next(),
        Some(("key".as_bytes().to_vec(), "value".as_bytes().to_vec()))
    );
    assert_eq!(iter.next(), None);
    assert_eq!(iter.next(), None);
}

#[test]
fn iteration_is_not_disturbed_by_lookups() {
    let reader = Reader::new(build(&[
        ("key".as_bytes(), "value".as_bytes()),
        ("hi".as_bytes(), "asdf".as_bytes()),
    ]))
    .unwrap();
    let mut iter = reader.into_iter();
    assert_eq!(
        iter.next(),
        Some(("key".as_bytes().to_vec(), "value".as_bytes().to_vec()))
    );
    assert_eq!(reader.get_first("hi".as_bytes()), Ok("asdf".as_bytes().to_vec()));
    assert_eq!(
        iter.next(),
        Some(("hi".as_bytes().to_vec(), "asdf".as_bytes().to_vec()))
    );
    assert_eq!(iter.next(), None);
}

#[test]
fn keys_lists_duplicates() {
    let reader = Reader::new(build(&[
        ("key".as_bytes(), "v0".as_bytes()),
        ("other".as_bytes(), "x".as_bytes()),
        ("key".as_bytes(), "v2".as_bytes()),
    ]))
    .unwrap();
    assert_eq!(
        reader.keys(),
        vec!["key".as_bytes(), "other".as_bytes(), "key".as_bytes()]
    );
}

#[test]
fn as_writer_cuts_the_tables_off() {
    let file = build(&[
        ("key".as_bytes(), "this is a value that is sligthly longer that the others".as_bytes()),
        ("another key".as_bytes(), "value field".as_bytes()),
        ("hi".as_bytes(), "asdf".as_bytes()),
    ]);
    assert_eq!(file.len(), 2206);
    let reader = Reader::new(file.clone()).unwrap();
    let writer = reader.as_writer().unwrap();
    let bytes = writer.into_bytes();
    assert_eq!(bytes.len(), 2158);
    assert_eq!(&bytes[..], &file[..2158]);
}

#[test]
fn as_writer_and_back_gives_the_same_database() {
    let file = build(&[
        ("key".as_bytes(), "value".as_bytes()),
        ("another key".as_bytes(), "value field".as_bytes()),
        ("hi".as_bytes(), "asdf".as_bytes()),
    ]);
    let reader = Reader::new(file.clone()).unwrap();
    let mut writer = reader.as_writer().unwrap();
    writer.finalize().unwrap();
    assert_eq!(writer.into_bytes(), file);
}

#[test]
fn as_writer_takes_more_records() {
    let file = build(&[
        ("key".as_bytes(), "this is a value that is sligthly longer that the others".as_bytes()),
        ("another key".as_bytes(), "value field".as_bytes()),
        ("hi".as_bytes(), "asdf".as_bytes()),
    ]);
    let mut writer = Reader::new(file).unwrap().as_writer().unwrap();
    writer.put("key".as_bytes(), "different value".as_bytes()).unwrap();
    writer.put("new key".as_bytes(), "a value".as_bytes()).unwrap();
    let reader = writer.as_reader().unwrap();
    assert_eq!(reader.len(), 5);
    assert_eq!(
        reader.keys(),
        vec![
            "key".as_bytes(),
            "another key".as_bytes(),
            "hi".as_bytes(),
            "key".as_bytes(),
            "new key".as_bytes()
        ]
    );
    assert_eq!(
        reader.get("key".as_bytes()),
        vec![
            "this is a value that is sligthly longer that the others".as_bytes(),
            "different value".as_bytes()
        ]
    );
    assert_eq!(reader.get("new key".as_bytes()), vec!["a value".as_bytes()]);
    assert_eq!(reader.into_bytes().len(), 2286);
}

#[test]
fn as_writer_of_a_bare_header_starts_from_nothing() {
    // All table positions are zero, so the tables start at byte zero and
    // nothing of the file is kept.
    let reader = Reader::new(vec![0u8; 2048]).unwrap();
    let writer = reader.as_writer().unwrap();
    assert_eq!(writer.into_bytes(), Vec::<u8>::new());
}

#[test]
fn as_writer_grows_a_file_that_ends_before_its_tables() {
    let mut file = Vec::new();
    for _ in 0..256 {
        file.extend_from_slice(&2100u32.to_le_bytes());
        file.extend_from_slice(&0u32.to_le_bytes());
    }
    let reader = Reader::new(file.clone()).unwrap();
    let bytes = reader.as_writer().unwrap().into_bytes();
    assert_eq!(bytes.len(), 2100);
    assert_eq!(&bytes[..2048], &file[..]);
    assert_eq!(&bytes[2048..], &[0u8; 52][..]);
}

#[test]
fn as_writer_keeps_the_values_of_a_key_in_the_order_of_the_puts() {
    // Both records go to the last of four slots: the second wraps round to
    // the first slot, and is still the second when the lists are made again.
    let file = build(&[(&[8, 8], "x".as_bytes()), (&[8, 8], "y".as_bytes())]);
    let reader = Reader::new(file).unwrap();
    assert_eq!(reader.get(&[8, 8]), vec!["x".as_bytes(), "y".as_bytes()]);
    let mut writer = reader.as_writer().unwrap();
    writer.put(&[8, 8], "z".as_bytes()).unwrap();
    writer.put("hi".as_bytes(), "asdf".as_bytes()).unwrap();
    let reader = writer.as_reader().unwrap();
    assert_eq!(
        reader.get(&[8, 8]),
        vec!["x".as_bytes(), "y".as_bytes(), "z".as_bytes()]
    );
    assert_eq!(reader.get_from_pos(&[8, 8], 3), Err(Error::KeyNotInCDB));
    assert_eq!(reader.get("hi".as_bytes()), vec!["asdf".as_bytes()]);
    assert_eq!(reader.len(), 4);
    assert_eq!(
        reader.keys(),
        vec![&[8u8, 8][..], &[8, 8], &[8, 8], "hi".as_bytes()]
    );
}

#[test]
fn as_writer_keeps_four_values_in_order_where_the_last_wrapped() {
    // The hash of "a" is 177604: of eight slots the sixth, so that the fourth
    // value lies in the first slot of the table.
    let records: [(&[u8], &[u8]); 4] = [
        ("a".as_bytes(), "0".as_bytes()),
        ("a".as_bytes(), "1".as_bytes()),
        ("a".as_bytes(), "2".as_bytes()),
        ("a".as_bytes(), "3".as_bytes()),
    ];
    let file = build(&records);
    assert_eq!(&file[2088..2096], &[196, 181, 2, 0, 30, 8, 0, 0]);
    let mut writer = Reader::new(file).unwrap().as_writer().unwrap();
    writer.put("hi".as_bytes(), "x".as_bytes()).unwrap();
    writer.put("hi".as_bytes(), "y".as_bytes()).unwrap();
    let reader = writer.as_reader().unwrap();
    assert_eq!(
        reader.get("a".as_bytes()),
        vec!["0".as_bytes(), "1".as_bytes(), "2".as_bytes(), "3".as_bytes()]
    );
    assert_eq!(reader.get("hi".as_bytes()), vec!["x".as_bytes(), "y".as_bytes()]);
    assert_eq!(reader.len(), 6);

    // One writer that is given all six records builds the same database.
    let all: [(&[u8], &[u8]); 6] = [
        records[0],
        records[1],
        records[2],
        records[3],
        ("hi".as_bytes(), "x".as_bytes()),
        ("hi".as_bytes(), "y".as_bytes()),
    ];
    assert_eq!(reader.into_bytes(), build(&all));
}

#[test]
fn as_writer_keeps_a_taken_slot_whose_hash_is_zero() {
    let file = build(&[("7bafhhw".as_bytes(), "value".as_bytes())]);
    let reader = Reader::new(file.clone()).unwrap();
    assert_eq!(reader.len(), 1);
    let mut writer = reader.as_writer().unwrap();
    writer.finalize().unwrap();
    let again = writer.into_bytes();
    assert_eq!(again, file);
    assert_eq!(Reader::new(again).unwrap().len(), 1);
}

#[test]
fn as_writer_cannot_bring_back_an_entry_that_another_took_the_slot_of() {
    // The first key has the hash zero, so that its slot counts as empty
    // when the table is made; the second key has the same home slot and
    // takes it. The table then holds one entry for two records.
    let first = "7bafhhw".as_bytes();
    let second = "aakn".as_bytes();
    assert_eq!(galvanize::helpers::hash(second), 2087553024);
    let file = build(&[(first, "v0".as_bytes()), (second, "v1".as_bytes())]);
    let reader = Reader::new(file).unwrap();
    assert_eq!(reader.len(), 2);
    assert_eq!(reader.keys(), vec![first, second]);
    let reader = reader.as_writer().unwrap().as_reader().unwrap();
    assert_eq!(reader.len(), 1);
    assert_eq!(reader.keys(), vec![first, second]);
    assert_eq!(reader.get(second), vec!["v1".as_bytes()]);
}

#[test]
fn as_writer_leaves_empty_slots_out_of_the_lists() {
    let file = build(&[
        ("key".as_bytes(), "value".as_bytes()),
        ("hi".as_bytes(), "asdf".as_bytes()),
    ]);
    let reader = Reader::new(file).unwrap().as_writer().unwrap().as_reader().unwrap();
    assert_eq!(reader.len(), 2);
    let mut writer = reader.as_writer().unwrap();
    writer.put("more".as_bytes(), "data".as_bytes()).unwrap();
    assert_eq!(writer.as_reader().unwrap().len(), 3);
}
