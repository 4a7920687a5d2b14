use galvanize::helpers::{hash, join, pack, unpack, vec2str};

#[test]
fn hash_of_nothing_is_the_seed() {
    assert_eq!(hash(&[]), 5381);
}

#[test]
fn hash_of_one_byte() {
    // (5381 * 33) ^ 97
    assert_eq!(hash("a".as_bytes()), 177604);
}

#[test]
fn hash_of_short_keys() {
    assert_eq!(hash("key".as_bytes()), 193424690);
    assert_eq!(hash("hi".as_bytes()), 5861124);
}

#[test]
fn hash_can_be_zero() {
    assert_eq!(hash("7bafhhw".as_bytes()), 0);
}

#[test]
fn hash_of_different_keys_can_agree() {
    assert_eq!(hash(&[8, 8]), 5860165);
    assert_eq!(hash(&[9, 105]), 5860165);
}

#[test]
fn pack_is_little_endian() {
    assert_eq!(pack(0x0102_0304), [4, 3, 2, 1]);
    assert_eq!(pack(0), [0, 0, 0, 0]);
    assert_eq!(pack(1), [1, 0, 0, 0]);
    assert_eq!(pack(2048), [0, 8, 0, 0]);
    assert_eq!(pack(u32::MAX), [255, 255, 255, 255]);
    assert_eq!(pack(193424690), [50, 109, 135, 11]);
}

#[test]
fn unpack_is_little_endian() {
    assert_eq!(unpack([4, 3, 2, 1]), 0x0102_0304);
    assert_eq!(unpack([0, 0, 0, 0]), 0);
    assert_eq!(unpack([0, 8, 0, 0]), 2048);
    assert_eq!(unpack([255, 255, 255, 255]), u32::MAX);
    assert_eq!(unpack([0, 0, 0, 128]), 0x8000_0000);
}

#[test]
fn join_takes_the_low_byte_first() {
    assert_eq!(join(0x78, 0x56, 0x34, 0x12), 0x1234_5678);
    assert_eq!(join(50, 109, 135, 11), 193424690);
}

#[test]
fn unpack_undoes_pack() {
    for x in [0u32, 1, 255, 256, 65535, 65536, 0x00ff_ff00, 0x8000_0001, u32::MAX] {
        assert_eq!(unpack(pack(x)), x);
        assert_eq!(pack(x), x.to_le_bytes());
    }
}

#[test]
fn vec2str_keeps_valid_text() {
    assert_eq!(vec2str("hello".as_bytes()), "hello");
    assert_eq!(vec2str(&[]), "");
    assert_eq!(vec2str(&[0xc3, 0xa9]), "\u{e9}");
}

#[test]
fn vec2str_replaces_what_is_not_text() {
    assert_eq!(vec2str(&[0x66, 0xff, 0x6f]), "f\u{fffd}o");
    assert_eq!(vec2str(&[0x80]), "\u{fffd}");
}
