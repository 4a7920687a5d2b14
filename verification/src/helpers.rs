//! The hash function and the fixed-width integer codec shared by the reader
//! and the writer.
use vstd::prelude::*;

verus! {

/// One round of the hash: `((h << 5) + h) ^ c`, modulo 2^32.
pub open spec fn hash_step(h: u32, c: u8) -> u32 {
    (h << 5).wrapping_add(h) ^ (c as u32)
}

/// The hash of a byte string: 5381 folded over the bytes with `hash_step`.
pub open spec fn spec_hash(s: Seq<u8>) -> u32
    decreases s.len(),
{
    if s.len() == 0 {
        5381
    } else {
        hash_step(spec_hash(s.drop_last()), s.last())
    }
}

/// DJB hash function: `h = ((h << 5) + h) ^ c`, starting from `5381`.
pub fn hash(string: &[u8]) -> (h: u32)
    ensures
        h == spec_hash(string@),
{
    let mut h: u32 = 5381;
    let mut i: usize = 0;
    while i < string.len()
        invariant
            i <= string@.len(),
            h == spec_hash(string@.take(i as int)),
        decreases string@.len() - i,
    {
        let c: u8 = string[i];
        proof {
            assert(string@.take(i + 1).drop_last() == string@.take(i as int));
        }
        h = (h << 5).wrapping_add(h) ^ (c as u32);
        i += 1;
    }
    proof {
        assert(string@.take(i as int) == string@);
    }
    h
}

/// The number that four bytes stand for, least significant byte first.
pub open spec fn le_value(b0: u8, b1: u8, b2: u8, b3: u8) -> u32 {
    (b0 + 0x100 * b1 + 0x1_0000 * b2 + 0x100_0000 * b3) as u32
}

/// The four bytes of `x`, least significant byte first.
pub open spec fn spec_pack(x: u32) -> Seq<u8> {
    seq![
        (x % 0x100) as u8,
        (x / 0x100 % 0x100) as u8,
        (x / 0x1_0000 % 0x100) as u8,
        (x / 0x100_0000) as u8,
    ]
}

/// The number that the first four bytes of `bytes` stand for.
pub open spec fn spec_unpack(bytes: Seq<u8>) -> u32 {
    le_value(bytes[0], bytes[1], bytes[2], bytes[3])
}

/// Unpacking undoes packing.
pub proof fn lemma_unpack_pack(x: u32)
    ensures
        spec_pack(x).len() == 4,
        spec_unpack(spec_pack(x)) == x,
{
    assert(x % 0x100 + 0x100 * (x / 0x100 % 0x100) + 0x1_0000 * (x / 0x1_0000 % 0x100)
        + 0x100_0000 * (x / 0x100_0000) == x) by (bit_vector);
    assert(x % 0x100 < 0x100 && x / 0x100 % 0x100 < 0x100 && x / 0x1_0000 % 0x100 < 0x100 && x
        / 0x100_0000 < 0x100) by (bit_vector);
}

/// Encode a 32-bit number as four bytes, little-endian.
pub fn pack(x: u32) -> (bytes: [u8; 4])
    ensures
        bytes@ == spec_pack(x),
{
    assert(x & 0xff == x % 0x100) by (bit_vector);
    assert((x >> 8) & 0xff == x / 0x100 % 0x100) by (bit_vector);
    assert((x >> 16) & 0xff == x / 0x1_0000 % 0x100) by (bit_vector);
    assert(x >> 24 == x / 0x100_0000) by (bit_vector);
    let bytes: [u8; 4] = [
        (x & 0xff) as u8,
        ((x >> 8) & 0xff) as u8,
        ((x >> 16) & 0xff) as u8,
        (x >> 24) as u8,
    ];
    assert(bytes@ =~= spec_pack(x));
    bytes
}

/// Decode four little-endian bytes into a 32-bit number.
pub fn unpack(bytes: [u8; 4]) -> (x: u32)
    ensures
        x == spec_unpack(bytes@),
{
    join(bytes[0], bytes[1], bytes[2], bytes[3])
}

/// The number that four bytes stand for, least significant byte first.
pub fn join(b0: u8, b1: u8, b2: u8, b3: u8) -> (x: u32)
    ensures
        x == le_value(b0, b1, b2, b3),
{
    assert((b0 as u32) | (b1 as u32) << 8 | (b2 as u32) << 16 | (b3 as u32) << 24 == b0
        + 0x100 * b1 + 0x1_0000 * b2 + 0x100_0000 * b3) by (bit_vector);
    (b0 as u32) | (b1 as u32) << 8 | (b2 as u32) << 16 | (b3 as u32) << 24
}

/// The text that `String::from_utf8_lossy` makes of `bytes`: the text that
/// the bytes encode where they are UTF-8, and else that text with the
/// replacement character in place of each run of bytes that is not.
pub uninterp spec fn lossy_text(bytes: Seq<u8>) -> Seq<char>;

/// Represent bytes as a "lossy" `utf8` `String`.
///
/// This calls `String::from_utf8_lossy` of the standard library, and its
/// contract is taken on trust from there: the result is a function of the
/// bytes alone, and bytes that are valid UTF-8 give the text that they
/// encode.
#[verifier::external_body]
pub fn vec2str(v: &[u8]) -> (text: String)
    ensures
        text@ == lossy_text(v@),
        vstd::utf8::valid_utf8(v@) ==> text@ == vstd::utf8::decode_utf8(v@),
{
    String::from_utf8_lossy(v).into_owned()
}

} // verus!
