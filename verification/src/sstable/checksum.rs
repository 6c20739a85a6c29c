//! The checksum of a block.

use vstd::prelude::*;

verus! {

/// One step of the division by the polynomial of CRC-32, the lowest bit first.
pub open spec fn crc_bit(c: u32) -> u32 {
    if c & 1 == 1 {
        (c >> 1) ^ 0xEDB8_8320
    } else {
        c >> 1
    }
}

/// The division by the bits of one more byte.
pub open spec fn crc_byte(c: u32, b: u8) -> u32 {
    crc_bit(crc_bit(crc_bit(crc_bit(crc_bit(crc_bit(crc_bit(crc_bit(c ^ b as u32))))))))
}

/// The remainder after bytes, when it begins with all bits set.
pub open spec fn crc_state(bytes: Seq<u8>) -> u32
    decreases bytes.len(),
{
    if bytes.len() == 0 {
        0xFFFF_FFFF
    } else {
        crc_byte(crc_state(bytes.drop_last()), bytes.last())
    }
}

/// The CRC-32 of bytes, as IEEE 802.3 has it.
#[verifier::opaque]
pub open spec fn crc32(bytes: Seq<u8>) -> u32 {
    !crc_state(bytes)
}

/// `crc32fast::hash`. The contract claims that it is the CRC-32 of `bytes`.
#[verifier::external_body]
pub(crate) fn checksum(bytes: &[u8]) -> (c: u32)
    ensures
        c == crc32(bytes@),
{
    crc32fast::hash(bytes)
}

/// A step of the division can be undone.
proof fn lemma_crc_bit(c: u32, d: u32)
    requires
        crc_bit(c) == crc_bit(d),
    ensures
        c == d,
{
    assert(c == d) by (bit_vector)
        requires
            (if c & 1 == 1 {
                (c >> 1) ^ 0xEDB8_8320u32
            } else {
                c >> 1
            }) == (if d & 1 == 1 {
                (d >> 1) ^ 0xEDB8_8320u32
            } else {
                d >> 1
            }),
    ;
}

/// The division by one byte is undone by undoing its steps.
proof fn lemma_crc_byte(c: u32, a: u8, d: u32, b: u8)
    requires
        crc_byte(c, a) == crc_byte(d, b),
    ensures
        a == b ==> c == d,
        c == d ==> a == b,
{
    let (x, y) = (c ^ a as u32, d ^ b as u32);
    let (x1, y1) = (crc_bit(x), crc_bit(y));
    let (x2, y2) = (crc_bit(x1), crc_bit(y1));
    let (x3, y3) = (crc_bit(x2), crc_bit(y2));
    let (x4, y4) = (crc_bit(x3), crc_bit(y3));
    let (x5, y5) = (crc_bit(x4), crc_bit(y4));
    let (x6, y6) = (crc_bit(x5), crc_bit(y5));
    lemma_crc_bit(crc_bit(x6), crc_bit(y6));
    lemma_crc_bit(x6, y6);
    lemma_crc_bit(x5, y5);
    lemma_crc_bit(x4, y4);
    lemma_crc_bit(x3, y3);
    lemma_crc_bit(x2, y2);
    lemma_crc_bit(x1, y1);
    lemma_crc_bit(x, y);
    assert(a == b ==> c == d) by (bit_vector)
        requires
            c ^ a as u32 == d ^ b as u32,
    ;
    assert(c == d ==> a == b) by (bit_vector)
        requires
            c ^ a as u32 == d ^ b as u32,
    ;
}

proof fn lemma_crc_state(s: Seq<u8>, i: int, b: u8)
    requires
        0 <= i < s.len(),
        s[i] != b,
    ensures
        crc_state(s.update(i, b)) != crc_state(s),
    decreases s.len(),
{
    let t = s.update(i, b);
    let (p, q) = (s.drop_last(), t.drop_last());
    if i == s.len() - 1 {
        assert(p =~= q);
    } else {
        lemma_crc_state(p, i, b);
        assert(q =~= p.update(i, b));
    }
    if crc_state(t) == crc_state(s) {
        lemma_crc_byte(crc_state(q), t.last(), crc_state(p), s.last());
    }
}

/// Bytes of which one is damaged have another checksum.
pub proof fn law_damaged_byte_changes_checksum(s: Seq<u8>, i: int, b: u8)
    requires
        0 <= i < s.len(),
        s[i] != b,
    ensures
        crc32(s.update(i, b)) != crc32(s),
{
    reveal(crc32);
    lemma_crc_state(s, i, b);
    let (x, y) = (crc_state(s.update(i, b)), crc_state(s));
    assert(x != y ==> !x != !y) by (bit_vector);
}

} // verus!
