use galvanize::helpers::hash;
use galvanize::{Error, Reader, Writer};
use std::collections::HashMap;

/// A small generator of numbers that look random and are the same on every
/// run.
struct Numbers(u64);

impl Numbers {
    fn next(&mut self) -> u64 {
        self.0 = self
            .0
            .wrapping_mul(6364136223846793005)
            .wrapping_add(1442695040888963407);
        self.0 >> 33
    }

    fn bytes(&mut self, most: u64) -> Vec<u8> {
        let len = self.next() % (most + 1);
        (0..len).map(|_| (self.next() % 256) as u8).collect()
    }

    fn record(&mut self, keys: u64) -> (Vec<u8>, Vec<u8>) {
        let key = format!("key {}", self.next() % keys).into_bytes();
        (key, self.bytes(40))
    }
}

fn values_of(records: &[(Vec<u8>, Vec<u8>)]) -> HashMap<Vec<u8>, Vec<Vec<u8>>> {
    let mut values: HashMap<Vec<u8>, Vec<Vec<u8>>> = HashMap::new();
    for (key, value) in records {
        values.entry(key.clone()).or_default().push(value.clone());
    }
    values
}

#[test]
fn what_was_put_is_what_is_read() {
    let mut numbers = Numbers(2024);
    for size in [1usize, 2, 3, 10, 100, 1500] {
        let records: Vec<(Vec<u8>, Vec<u8>)> =
            (0..size).map(|_| numbers.record(size as u64 / 2 + 1)).collect();
        let mut writer = Writer::new(Vec::new()).unwrap();
        for (key, value) in &records {
            assert_eq!(writer.put(key, value), Ok(()));
        }
        let reader = writer.as_reader().unwrap();

        assert_eq!(reader.len(), size as u64);
        let keys: Vec<Vec<u8>> = records.iter().map(|r| r.0.clone()).collect();
        assert_eq!(reader.keys(), keys);
        let mut iter = reader.into_iter();
        for record in &records {
            assert_eq!(iter.next().as_ref(), Some(record));
        }
        assert_eq!(iter.next(), None);

        for (key, values) in values_of(&records) {
            assert_ne!(hash(&key), 0);
            assert_eq!(reader.get(&key), values);
            assert_eq!(reader.get_first(&key).as_ref(), Ok(&values[0]));
            for (i, value) in values.iter().enumerate() {
                assert_eq!(reader.get_from_pos(&key, i as u32).as_ref(), Ok(value));
            }
            assert_eq!(
                reader.get_from_pos(&key, values.len() as u32),
                Err(Error::KeyNotInCDB)
            );
        }
        for i in 0..50 {
            let absent = format!("no key {}", i).into_bytes();
            assert_eq!(reader.get_first(&absent), Err(Error::KeyNotInCDB));
            assert_eq!(reader.get(&absent), Vec::<Vec<u8>>::new());
        }
    }
}

#[test]
fn what_was_there_and_what_was_added_is_what_is_read() {
    let mut numbers = Numbers(4711);
    for size in [1usize, 5, 60, 700] {
        let records: Vec<(Vec<u8>, Vec<u8>)> =
            (0..size).map(|_| numbers.record(size as u64 / 3 + 1)).collect();
        let more: Vec<(Vec<u8>, Vec<u8>)> =
            (0..size / 2 + 1).map(|_| numbers.record(size as u64 / 2 + 1)).collect();
        let mut writer = Writer::new(Vec::new()).unwrap();
        for (key, value) in &records {
            writer.put(key, value).unwrap();
        }
        let mut writer = writer.as_reader().unwrap().as_writer().unwrap();
        for (key, value) in &more {
            writer.put(key, value).unwrap();
        }
        let reader = writer.as_reader().unwrap();

        assert_eq!(reader.len(), (records.len() + more.len()) as u64);
        let keys: Vec<Vec<u8>> = records.iter().chain(more.iter()).map(|r| r.0.clone()).collect();
        assert_eq!(reader.keys(), keys);

        let before = values_of(&records);
        let added = values_of(&more);
        for key in keys {
            let none = Vec::new();
            let old = before.get(&key).unwrap_or(&none);
            let new = added.get(&key).unwrap_or(&none);
            let found = reader.get(&key);
            // The values that were there come first, and those that were
            // added follow, each in the order of the puts.
            let mut expected = old.clone();
            expected.extend(new.iter().cloned());
            assert_eq!(found, expected);
        }

        // One writer that is given all the records builds the same database.
        let mut writer = Writer::new(Vec::new()).unwrap();
        for (key, value) in records.iter().chain(more.iter()) {
            writer.put(key, value).unwrap();
        }
        writer.finalize().unwrap();
        assert_eq!(reader.into_bytes(), writer.into_bytes());
    }
}
