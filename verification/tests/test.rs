use galvanize::helpers::hash;
use galvanize::Reader;
use galvanize::Writer;

#[test]
fn known_good_djb_hash() {
    assert_eq!(hash("dave".as_bytes()), 2087378131);
}

#[test]
fn djb_correct_wrapping() {
    assert_eq!(hash("davedavedavedavedave".as_bytes()), 3529598163);
}

fn make_writer(file: Vec<u8>, items: &[(&[u8], &[u8])]) -> Writer {
    // This is how you write into a CDB.
    let mut cdb_writer = Writer::new(file).ok().unwrap();

    for item in items.iter() {
        // Inserting returns a success or error.
        let _ = cdb_writer.put(item.0, item.1);
    }
    cdb_writer
}

#[test]
fn create_file() {
    let items = [
        (
            "key".as_bytes(),
            "this is a value that is sligthly longer that the others".as_bytes(),
        ),
        ("another key".as_bytes(), "value field".as_bytes()),
        ("hi".as_bytes(), "asdf".as_bytes()),
    ];
    let file = {
        let mut cdb_writer = make_writer(Vec::new(), &items);
        for i in 0..128 {
            let _ = cdb_writer.put(&[i], &[i]);
        }
        for i in 0..128 {
            let _ = cdb_writer.put(&[i], &[128 - i]);
        }
        let k = "25".as_bytes();
        let _ = cdb_writer.put(k, "a".as_bytes());
        let _ = cdb_writer.put(k, "b".as_bytes());
        // The hash tables are written when the writer is finalized.
        cdb_writer.finalize().unwrap();
        cdb_writer.into_bytes()
    };

    {
        // This is how you read from a CDB.
        let cdb_reader = Reader::new(file).ok().unwrap();

        for item in items.iter() {
            // Fetch first value for a given key.
            let (k, v) = *item;
            match cdb_reader.get_first(k) {
                Ok(val) => assert_eq!(v, &val[..]),
                Err(e) => panic!("{:?} {:?} {:?}", k, v, e),
            }
        }

        for i in 0..128 {
            // Fetch value for a specific position under a given key.
            match cdb_reader.get_from_pos(&[i], 0) {
                Ok(v) => assert_eq!(&[i], &v[..]),
                Err(e) => panic!("Error reading first value from key {:?}: {:?}", i, e),
            }
            match cdb_reader.get_from_pos(&[i], 1) {
                Ok(v) => assert_eq!(&[128 - i], &v[..]),
                Err(e) => panic!("Error reading second value from key {:?}: {:?}", i, e),
            }
        }

        assert_eq!(
            cdb_reader.get("25".as_bytes()),
            vec!["a".as_bytes(), "b".as_bytes()]
        );
        assert_eq!(cdb_reader.len(), 261);
    }
}

#[test]
fn turn_writer_into_reader() {
    let items = [
        (
            "key".as_bytes(),
            "this is a value that is sligthly longer that the others".as_bytes(),
        ),
        ("another key".as_bytes(), "value field".as_bytes()),
        ("hi".as_bytes(), "asdf".as_bytes()),
    ];
    let cdb_writer = make_writer(Vec::new(), &items);
    let cdb_reader = cdb_writer.as_reader().unwrap();
    for item in items.iter() {
        // Fetch first value for a given key.
        let (k, v) = *item;
        match cdb_reader.get_first(k) {
            Ok(val) => assert_eq!(v, &val[..]),
            Err(e) => panic!("{:?} {:?} {:?}", k, v, e),
        }
    }
}

#[test]
fn turn_reader_into_writer() {
    let items = [
        (
            "key".as_bytes(),
            "this is a value that is sligthly longer that the others".as_bytes(),
        ),
        ("another key".as_bytes(), "value field".as_bytes()),
        ("hi".as_bytes(), "asdf".as_bytes()),
    ];
    let k1 = "key".as_bytes();
    let k2 = "new key".as_bytes();
    let v1 = "different value".as_bytes();
    let v2 = "a value".as_bytes();

    let file = {
        let mut cdb_writer = make_writer(Vec::new(), &items);
        cdb_writer.finalize().unwrap();
        cdb_writer.into_bytes()
    };
    let file = {
        let cdb_reader = Reader::new(file).unwrap();
        // Look the items up to confirm that the reader works as expected.
        for item in items.iter() {
            // Fetch first value for a given key.
            let (k, v) = *item;
            match cdb_reader.get_first(k) {
                Ok(val) => assert_eq!(v, &val[..]),
                Err(e) => panic!("{:?} {:?} {:?}", k, v, e),
            }
        }

        // Turn into writer
        let mut cdb_writer = cdb_reader.as_writer().unwrap();
        // Add a new value under an existing key
        let _ = cdb_writer.put(k1, v1);
        // Add a new value under a new key
        let _ = cdb_writer.put(k2, v2);
        cdb_writer.finalize().unwrap();
        cdb_writer.into_bytes()
    };
    {
        // Read from the CDB to confirm that both the data that was there
        // and the data that was appended can be read.
        let cdb_reader = Reader::new(file).ok().unwrap();
        for item in items.iter() {
            // Fetch first value for a given key.
            let (k, v) = *item;
            match cdb_reader.get_first(k) {
                Ok(val) => assert_eq!(v, &val[..]),
                Err(e) => panic!("{:?} {:?} {:?}", k, v, e),
            }
        }
        assert_eq!(v1, &cdb_reader.get_from_pos(k1, 1).unwrap()[..]);
        assert_eq!(v2, &cdb_reader.get_from_pos(k2, 0).unwrap()[..]);
    }
}

#[test]
fn keys() {
    // Use of the key listing on a CDB Reader.
    let mut cdb_writer = Writer::new(Vec::new()).ok().unwrap();
    for i in 1..=250u32 {
        let key = format!("password{}", i);
        let value = i.to_string();
        cdb_writer.put(key.as_bytes(), value.as_bytes()).unwrap();
    }
    let cdb_reader = cdb_writer.as_reader().ok().unwrap();
    let len = cdb_reader.len();

    assert_eq!(len, 250);
    assert_eq!(len, cdb_reader.keys().len() as u64);
    // Do it again to make sure that listing the keys does not use the
    // reader up.
    assert_eq!(len, cdb_reader.keys().len() as u64);
}
