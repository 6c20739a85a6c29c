//! Numbers, keys and values as bytes.

use vstd::arithmetic::div_mod::lemma_div_denominator;
use vstd::arithmetic::power::{lemma_pow0, lemma_pow_positive, pow};
use vstd::prelude::*;
use vstd::slice::slice_subrange;
use vstd::utf8::*;

use crate::common::error::{unexpected_eof, DbError, DbResult};
use crate::common::key::{Key, KeyView};
use crate::common::text;
use crate::common::value::{Value, ValueView};
use crate::common::versions::Entry;

verus! {

/// The `n` low bytes of `v`, the most significant one first.
#[verifier::opaque]
pub open spec fn be(v: nat, n: nat) -> Seq<u8>
    decreases n,
{
    if n == 0 {
        Seq::empty()
    } else {
        be(v / 256, (n - 1) as nat).push((v % 256) as u8)
    }
}

/// The number that bytes denote, the most significant one first.
#[verifier::opaque]
pub open spec fn from_be(s: Seq<u8>) -> nat
    decreases s.len(),
{
    if s.len() == 0 {
        0
    } else {
        from_be(s.drop_last()) * 256 + s.last() as nat
    }
}

/// How many numbers `n` bytes can denote.
pub open spec fn be_limit(n: nat) -> nat
    decreases n,
{
    if n == 0 {
        1
    } else {
        256 * be_limit((n - 1) as nat)
    }
}

/// The number in the `n` bytes of `data` at `at`.
pub open spec fn number_at(data: Seq<u8>, at: int, n: int) -> nat {
    from_be(data.subrange(at, at + n))
}

pub proof fn lemma_be_limits()
    ensures
        be_limit(1) == 0x100,
        be_limit(2) == 0x1_0000,
        be_limit(4) == 0x1_0000_0000,
        be_limit(8) == 0x1_0000_0000_0000_0000,
{
    reveal_with_fuel(be_limit, 9);
}

/// Bytes have as many as asked for, and denote the number again.
pub proof fn lemma_be(v: nat, n: nat)
    ensures
        be(v, n).len() == n,
        v < be_limit(n) ==> from_be(be(v, n)) == v,
    decreases n,
{
    reveal(be);
    reveal(from_be);
    if n > 0 {
        lemma_be(v / 256, (n - 1) as nat);
        assert(be(v, n).drop_last() =~= be(v / 256, (n - 1) as nat));
        if v < be_limit(n) {
            assert(v / 256 < be_limit((n - 1) as nat));
        }
    }
}

/// Bytes denote a number below their limit.
pub proof fn lemma_from_be_bound(s: Seq<u8>)
    ensures
        from_be(s) < be_limit(s.len()),
    decreases s.len(),
{
    reveal(from_be);
    if s.len() > 0 {
        lemma_from_be_bound(s.drop_last());
    }
}

/// A number of two bytes.
pub broadcast proof fn lemma_number_2(data: Seq<u8>, at: int)
    requires
        0 <= at,
        at + 2 <= data.len(),
    ensures
        #[trigger] number_at(data, at, 2) < 0x1_0000,
{
    lemma_from_be_bound(data.subrange(at, at + 2));
    lemma_be_limits();
}

/// A number of four bytes.
pub broadcast proof fn lemma_number_4(data: Seq<u8>, at: int)
    requires
        0 <= at,
        at + 4 <= data.len(),
    ensures
        #[trigger] number_at(data, at, 4) < 0x1_0000_0000,
{
    lemma_from_be_bound(data.subrange(at, at + 4));
    lemma_be_limits();
}

fn put_be(b: &mut Vec<u8>, v: u64, n: usize)
    ensures
        final(b)@ == old(b)@ + be(v as nat, n as nat),
    decreases n,
{
    reveal(be);
    if n > 0 {
        put_be(b, v / 256, n - 1);
        b.push((v % 256) as u8);
        assert(b@ =~= old(b)@ + be(v as nat, n as nat));
    } else {
        assert(b@ =~= old(b)@ + be(v as nat, n as nat));
    }
}

/// Appends two bytes.
pub fn put_u16(b: &mut Vec<u8>, v: u16)
    ensures
        final(b)@ == old(b)@ + be(v as nat, 2),
{
    put_be(b, v as u64, 2);
}

/// Appends four bytes.
pub fn put_u32(b: &mut Vec<u8>, v: u32)
    ensures
        final(b)@ == old(b)@ + be(v as nat, 4),
{
    put_be(b, v as u64, 4);
}

/// Appends eight bytes.
pub fn put_u64(b: &mut Vec<u8>, v: u64)
    ensures
        final(b)@ == old(b)@ + be(v as nat, 8),
{
    put_be(b, v, 8);
}

/// `b` with the bytes from `at` on replaced by `new`.
pub open spec fn overwritten(b: Seq<u8>, at: int, new: Seq<u8>) -> Seq<u8> {
    b.take(at) + new + b.skip(at + new.len())
}

fn set_be(b: &mut Vec<u8>, offset: usize, v: u64, n: usize)
    requires
        offset + n <= old(b)@.len(),
    ensures
        final(b)@ == overwritten(old(b)@, offset as int, be(v as nat, n as nat)),
    decreases n,
{
    reveal(be);
    proof {
        lemma_be(v as nat, n as nat);
    }
    if n > 0 {
        proof {
            lemma_be((v / 256) as nat, (n - 1) as nat);
        }
        set_be(b, offset, v / 256, n - 1);
        let len: usize = b.len();
        assert(offset + n <= len);
        b.set(offset + (n - 1), (v % 256) as u8);
        assert(b@ =~= overwritten(old(b)@, offset as int, be(v as nat, n as nat)));
    } else {
        assert(b@ =~= overwritten(old(b)@, offset as int, be(v as nat, n as nat)));
    }
}

/// Replaces two bytes.
pub fn set_u16(b: &mut Vec<u8>, offset: usize, v: u16)
    requires
        offset + 2 <= old(b)@.len(),
    ensures
        final(b)@ == overwritten(old(b)@, offset as int, be(v as nat, 2)),
{
    set_be(b, offset, v as u64, 2);
}

/// Replaces four bytes.
pub fn set_u32(b: &mut Vec<u8>, offset: usize, v: u32)
    requires
        offset + 4 <= old(b)@.len(),
    ensures
        final(b)@ == overwritten(old(b)@, offset as int, be(v as nat, 4)),
{
    set_be(b, offset, v as u64, 4);
}

fn get_be(data: &[u8], at: usize, n: usize) -> (v: u64)
    requires
        n <= 8,
        at + n <= data@.len(),
    ensures
        v == number_at(data@, at as int, n as int),
{
    reveal(from_be);
    let len: usize = data.len();
    let mut v: u64 = 0;
    let mut i: usize = 0;
    while i < n
        invariant
            i <= n <= 8,
            at + n <= len == data@.len(),
            v == number_at(data@, at as int, i as int),
        decreases n - i,
    {
        reveal(from_be);
        proof {
            let s = data@.subrange(at as int, at + i + 1);
            assert(s.drop_last() =~= data@.subrange(at as int, at + i));
            lemma_from_be_bound(s);
            reveal_with_fuel(be_limit, 9);
        }
        v = v * 256 + data[at + i] as u64;
        i += 1;
    }
    v
}

/// Reads two bytes.
pub fn get_u16(data: &[u8], at: usize) -> (v: u16)
    requires
        at + 2 <= data@.len(),
    ensures
        v == number_at(data@, at as int, 2),
{
    proof {
        lemma_number_2(data@, at as int);
    }
    get_be(data, at, 2) as u16
}

/// Reads four bytes.
pub fn get_u32(data: &[u8], at: usize) -> (v: u32)
    requires
        at + 4 <= data@.len(),
    ensures
        v == number_at(data@, at as int, 4),
{
    proof {
        lemma_number_4(data@, at as int);
    }
    get_be(data, at, 4) as u32
}

/// Reads eight bytes.
pub fn get_u64(data: &[u8], at: usize) -> (v: u64)
    requires
        at + 8 <= data@.len(),
    ensures
        v == number_at(data@, at as int, 8),
{
    get_be(data, at, 8)
}

/// Whether a text of this many bytes can be written.
pub open spec fn fits(len: nat) -> bool {
    len <= u16::MAX
}

/// A key in a file: its length, its text, its sequence number.
pub open spec fn key_bytes(k: KeyView) -> Seq<u8> {
    be(k.text_len(), 2) + encode_utf8(k.user) + be(k.seq as nat, 8)
}

/// The text of a value; none for a deletion mark.
pub open spec fn value_text(v: ValueView) -> Seq<u8> {
    match v {
        ValueView::Put(s) => encode_utf8(s),
        ValueView::Delete => Seq::empty(),
    }
}

/// A value in a file: its length, its text.
pub open spec fn value_bytes(v: ValueView) -> Seq<u8> {
    be(v.text_len(), 2) + value_text(v)
}

/// An entry in a file.
#[verifier::opaque]
pub open spec fn entry_bytes(e: Entry) -> Seq<u8> {
    key_bytes(e.0) + value_bytes(e.1)
}

/// Whether an entry can be written.
pub open spec fn entry_fits(e: Entry) -> bool {
    fits(e.0.text_len()) && fits(e.1.text_len())
}

/// The length of a text as a number of two bytes, or the error that it is too
/// large.
pub(crate) fn short_len(len: usize) -> (r: DbResult<u16>)
    ensures
        r matches Ok(n) ==> n == len,
        r is Ok <==> fits(len as nat),
        r matches Err(e) ==> e is InvalidInt,
{
    match u16::try_from(len) {
        Ok(n) => Ok(n),
        Err(e) => Err(DbError::from(e)),
    }
}

/// Appends a key. A key that is too long is refused.
pub fn encode_key(buf: &mut Vec<u8>, key: &Key) -> (r: DbResult<()>)
    ensures
        r is Ok <==> fits(key@.text_len()),
        r is Ok <==> encode_utf8(key.0@).len() <= 65535,
        r is Ok ==> final(buf)@ == old(buf)@ + key_bytes(key@),
        r matches Err(e) ==> e is InvalidInt && final(buf)@ == old(buf)@,
{
    let bytes = key.0.as_str().as_bytes();
    match short_len(bytes.len()) {
        Err(e) => Err(e),
        Ok(len) => {
            put_u16(buf, len);
            buf.extend_from_slice(bytes);
            put_u64(buf, key.1);
            assert(buf@ =~= old(buf)@ + key_bytes(key@));
            Ok(())
        },
    }
}

/// Appends a value. A value that is too long is refused.
pub fn encode_value(buf: &mut Vec<u8>, value: &Value) -> (r: DbResult<()>)
    ensures
        r is Ok <==> fits(value@.text_len()),
        r is Ok <==> (value matches Value::Put(s) ==> encode_utf8(s@).len() <= 65535),
        r is Ok ==> final(buf)@ == old(buf)@ + value_bytes(value@),
        r matches Err(e) ==> e is InvalidInt && final(buf)@ == old(buf)@,
{
    match value {
        Value::Put(value) => {
            let bytes = value.as_str().as_bytes();
            match short_len(bytes.len()) {
                Err(e) => Err(e),
                Ok(len) => {
                    put_u16(buf, len);
                    buf.extend_from_slice(bytes);
                    assert(buf@ =~= old(buf)@ + value_bytes(ValueView::Put(value@)));
                    Ok(())
                },
            }
        },
        Value::Delete => {
            put_u16(buf, 0);
            assert(buf@ =~= old(buf)@ + value_bytes(ValueView::Delete));
            Ok(())
        },
    }
}

/// Appends an entry. A key that is too long leaves the buffer as it was; after
/// a value that is too long the buffer ends with the key.
pub fn encode(buf: &mut Vec<u8>, key: &Key, value: &Value) -> (r: DbResult<()>)
    ensures
        r is Ok <==> entry_fits((key@, value@)),
        r is Ok <==> encode_utf8(key.0@).len() <= 65535 && (value matches Value::Put(s)
            ==> encode_utf8(s@).len() <= 65535),
        r is Ok ==> final(buf)@ == old(buf)@ + entry_bytes((key@, value@)),
        r matches Err(e) ==> e is InvalidInt && final(buf)@ == (if fits(key@.text_len()) {
            old(buf)@ + key_bytes(key@)
        } else {
            old(buf)@
        }),
{
    reveal(entry_bytes);
    match encode_key(buf, key) {
        Err(e) => Err(e),
        Ok(_) => match encode_value(buf, value) {
            Err(e) => Err(e),
            Ok(_) => {
                assert(buf@ =~= old(buf)@ + entry_bytes((key@, value@)));
                Ok(())
            },
        },
    }
}

/// The key at `at` and where it ends, unless the data ends before it does.
/// Bytes that are no UTF-8 are replaced.
pub open spec fn key_at(data: Seq<u8>, at: int) -> Option<(KeyView, int)> {
    let len = number_at(data, at, 2);
    if at + 2 > data.len() || at + 2 + len + 8 > data.len() {
        None
    } else {
        Some(
            (
                KeyView {
                    user: text::read_text(data.subrange(at + 2, at + 2 + len)),
                    seq: number_at(data, at + 2 + len, 8) as u64,
                },
                at + 2 + len + 8,
            ),
        )
    }
}

/// The value at `at` and where it ends, unless the data ends before it does.
/// Bytes that are no UTF-8 are replaced.
pub open spec fn value_at(data: Seq<u8>, at: int) -> Option<(ValueView, int)> {
    let len = number_at(data, at, 2);
    if at + 2 > data.len() || at + 2 + len > data.len() {
        None
    } else if len == 0 {
        Some((ValueView::Delete, at + 2))
    } else {
        Some(
            (
                ValueView::Put(text::read_text(data.subrange(at + 2, at + 2 + len))),
                at + 2 + len,
            ),
        )
    }
}

/// The entry at `at` and where it ends, unless the data ends before it does.
pub open spec fn entry_at(data: Seq<u8>, at: int) -> Option<(Entry, int)> {
    match key_at(data, at) {
        None => None,
        Some((k, mid)) => match value_at(data, mid) {
            None => None,
            Some((v, end)) => Some(((k, v), end)),
        },
    }
}

/// Reads a key. Returns it and where it ends.
pub fn read_key(data: &[u8], at: usize) -> (r: DbResult<(Key, usize)>)
    requires
        at <= data@.len(),
    ensures
        r matches Ok((k, end)) ==> key_at(data@, at as int) == Some((k@, end as int)) && end
            <= data@.len(),
        r matches Err(e) ==> e is IO && key_at(data@, at as int) is None,
{
    if data.len() - at < 2 {
        return Err(DbError::IO(unexpected_eof()));
    }
    let len: usize = get_u16(data, at) as usize;
    if data.len() - at - 2 < len || data.len() - at - 2 - len < 8 {
        return Err(DbError::IO(unexpected_eof()));
    }
    let user = text::from_utf8_lossy(slice_subrange(data, at + 2, at + 2 + len));
    let seq: u64 = get_u64(data, at + 2 + len);
    Ok((Key(user, seq), at + 2 + len + 8))
}

/// Reads a value. Returns it and where it ends.
pub fn read_value(data: &[u8], at: usize) -> (r: DbResult<(Value, usize)>)
    requires
        at <= data@.len(),
    ensures
        r matches Ok((v, end)) ==> value_at(data@, at as int) == Some((v@, end as int)) && end
            <= data@.len(),
        r matches Err(e) ==> e is IO && value_at(data@, at as int) is None,
{
    if data.len() - at < 2 {
        return Err(DbError::IO(unexpected_eof()));
    }
    let len: usize = get_u16(data, at) as usize;
    if len == 0 {
        return Ok((Value::Delete, at + 2));
    }
    if data.len() - at - 2 < len {
        return Err(DbError::IO(unexpected_eof()));
    }
    let value = text::from_utf8_lossy(slice_subrange(data, at + 2, at + 2 + len));
    Ok((Value::Put(value), at + 2 + len))
}

/// How many bytes the parts of an entry take.
pub proof fn lemma_entry_len(e: Entry)
    ensures
        key_bytes(e.0).len() == 2 + e.0.text_len() + 8,
        value_text(e.1).len() == e.1.text_len(),
        value_bytes(e.1).len() == 2 + e.1.text_len(),
        entry_bytes(e).len() == 12 + e.0.text_len() + e.1.text_len(),
{
    reveal(entry_bytes);
    lemma_be(e.0.text_len(), 2);
    lemma_be(e.0.seq as nat, 8);
    lemma_be(e.1.text_len(), 2);
}

/// A key that was written is read back.
pub proof fn law_key_round_trip(data: Seq<u8>, at: int, k: KeyView)
    requires
        0 <= at,
        at + key_bytes(k).len() <= data.len(),
        data.subrange(at, at + key_bytes(k).len()) == key_bytes(k),
        fits(k.text_len()),
    ensures
        key_at(data, at) == Some((k, at + key_bytes(k).len())),
{
    lemma_be(k.text_len(), 2);
    lemma_be(k.seq as nat, 8);
    lemma_be_limits();
    text::lemma_read_encoded(k.user);
    let s = data.subrange(at, at + key_bytes(k).len());
    let n = k.text_len() as int;
    assert(data.subrange(at, at + 2) =~= s.subrange(0, 2));
    assert(s.subrange(0, 2) =~= be(k.text_len(), 2));
    assert(data.subrange(at + 2, at + 2 + n) =~= s.subrange(2, 2 + n));
    assert(s.subrange(2, 2 + n) =~= encode_utf8(k.user));
    assert(data.subrange(at + 2 + n, at + 2 + n + 8) =~= s.subrange(2 + n, 2 + n + 8));
    assert(s.subrange(2 + n, 2 + n + 8) =~= be(k.seq as nat, 8));
}

/// A value that was written is read back, an empty text as a deletion mark.
pub proof fn law_value_round_trip(data: Seq<u8>, at: int, v: ValueView)
    requires
        0 <= at,
        at + value_bytes(v).len() <= data.len(),
        data.subrange(at, at + value_bytes(v).len()) == value_bytes(v),
        fits(v.text_len()),
    ensures
        value_at(data, at) == Some((v.stored(), at + value_bytes(v).len())),
{
    lemma_be(v.text_len(), 2);
    lemma_be_limits();
    let s = data.subrange(at, at + value_bytes(v).len());
    let n = v.text_len() as int;
    assert(value_text(v).len() == n);
    assert(data.subrange(at, at + 2) =~= s.subrange(0, 2));
    assert(s.subrange(0, 2) =~= be(v.text_len(), 2));
    assert(data.subrange(at + 2, at + 2 + n) =~= s.subrange(2, 2 + n));
    assert(s.subrange(2, 2 + n) =~= value_text(v));
    if let ValueView::Put(t) = v {
        text::lemma_read_encoded(t);
        text::lemma_encode_empty(t);
    }
}

/// An entry that was written is read back, an empty text as a deletion mark.
pub proof fn law_entry_round_trip(data: Seq<u8>, at: int, e: Entry)
    requires
        0 <= at,
        at + entry_bytes(e).len() <= data.len(),
        data.subrange(at, at + entry_bytes(e).len()) == entry_bytes(e),
        entry_fits(e),
    ensures
        entry_at(data, at) == Some(((e.0, e.1.stored()), at + entry_bytes(e).len())),
{
    reveal(entry_bytes);
    lemma_entry_len(e);
    let s = data.subrange(at, at + entry_bytes(e).len());
    let n = key_bytes(e.0).len() as int;
    assert(data.subrange(at, at + n) =~= s.subrange(0, n));
    assert(s.subrange(0, n) =~= key_bytes(e.0));
    let m = s.len() as int;
    assert(data.subrange(at + n, at + m) =~= s.subrange(n, m));
    assert(s.subrange(n, m) =~= value_bytes(e.1));
    law_key_round_trip(data, at, e.0);
    law_value_round_trip(data, at + n, e.1);
}

/// The byte of a number that stands `i` places before the last one counts how often
/// the `i`-th power of 256 goes into it.
pub proof fn law_bytes_of_number(v: nat, n: nat, i: nat)
    requires
        i < n,
    ensures
        be(v, n).len() == n,
        be(v, n)[n - 1 - i] == (v as int / pow(256, i)) % 256,
    decreases n,
{
    reveal(be);
    lemma_be(v, n);
    lemma_be(v / 256, (n - 1) as nat);
    lemma_pow0(256);
    if i > 0 {
        law_bytes_of_number(v / 256, (n - 1) as nat, (i - 1) as nat);
        lemma_pow_positive(256, (i - 1) as nat);
        assert(pow(256, i) == 256 * pow(256, (i - 1) as nat)) by {
            reveal(pow);
        }
        lemma_div_denominator(v as int, 256, pow(256, (i - 1) as nat));
        assert(be(v, n)[n - 1 - i] == be(v / 256, (n - 1) as nat)[n - 1 - i]);
    }
}

/// Two bytes denote 256 times the first one and the second one; four and eight bytes
/// go on so.
pub proof fn law_number_of_bytes(s: Seq<u8>)
    ensures
        s.len() == 0 ==> from_be(s) == 0,
        s.len() > 0 ==> from_be(s) == 256 * from_be(s.drop_last()) + s.last(),
        s.len() == 2 ==> from_be(s) == 256 * s[0] + s[1],
        s.len() == 4 ==> from_be(s) == 0x100_0000 * s[0] + 0x1_0000 * s[1] + 0x100 * s[2] + s[3],
    decreases s.len(),
{
    reveal(from_be);
    if s.len() > 0 {
        let p = s.drop_last();
        law_number_of_bytes(p);
        if s.len() == 4 {
            law_number_of_bytes(p.drop_last());
            assert(p.drop_last()[0] == s[0] && p.drop_last()[1] == s[1]);
        }
        if s.len() == 2 {
            law_number_of_bytes(p.drop_last());
        }
    }
}

/// An entry can be written exactly when its key and its text have at most 65535 bytes
/// each.
pub proof fn law_entry_fits(e: Entry)
    ensures
        entry_fits(e) <==> encode_utf8(e.0.user).len() <= 65535 && (e.1 matches ValueView::Put(s)
            ==> encode_utf8(s).len() <= 65535),
{
}

/// An entry is written as the length of its key in two bytes, its key, its sequence
/// number in eight bytes, the length of its text in two bytes, and its text, with no
/// text for a deletion mark.
pub proof fn law_entry_layout(e: Entry)
    ensures
        ({
            let k = encode_utf8(e.0.user);
            let t = match e.1 {
                ValueView::Put(s) => encode_utf8(s),
                ValueView::Delete => Seq::empty(),
            };
            let n = k.len() as int;
            let b = entry_bytes(e);
            &&& b.len() == 12 + k.len() + t.len()
            &&& b[0] == (k.len() / 256) % 256 && b[1] == k.len() % 256
            &&& b.subrange(2, 2 + n) == k
            &&& from_be(b.subrange(2 + n, 10 + n)) == e.0.seq
            &&& b[10 + n] == (t.len() / 256) % 256 && b[11 + n] == t.len() % 256
            &&& b.subrange(12 + n, b.len() as int) == t
        }),
{
    reveal(entry_bytes);
    lemma_entry_len(e);
    lemma_be(e.0.seq as nat, 8);
    lemma_be_limits();
    let k = encode_utf8(e.0.user);
    let t = value_text(e.1);
    let n = k.len() as int;
    let b = entry_bytes(e);
    law_two_bytes(k.len());
    law_two_bytes(t.len());
    assert(b.subrange(2, 2 + n) =~= k);
    assert(b.subrange(2 + n, 10 + n) =~= be(e.0.seq as nat, 8));
    assert(b.subrange(12 + n, b.len() as int) =~= t);
}

/// A number of two bytes.
pub proof fn law_two_bytes(v: nat)
    ensures
        be(v, 2) == seq![((v / 256) % 256) as u8, (v % 256) as u8],
{
    reveal_with_fuel(be, 3);
    assert(be(v, 2) =~= seq![((v / 256) % 256) as u8, (v % 256) as u8]);
}

/// An entry is read exactly when the data reaches as far as its two lengths say. What
/// is read ends there, and holds the bytes in between as a text: what they encode if
/// they are valid.
pub proof fn law_entry_is_read(data: Seq<u8>, at: int)
    requires
        0 <= at,
    ensures
        ({
            let n = 256 * data[at] + data[at + 1];
            let m = 256 * data[at + n + 10] + data[at + n + 11];
            let (k, t) = (
                data.subrange(at + 2, at + 2 + n),
                data.subrange(at + n + 12, at + n + 12 + m),
            );
            &&& entry_at(data, at) is Some <==> at + 2 <= data.len() && at + n + 12 <= data.len()
                && at + n + 12 + m <= data.len()
            &&& entry_at(data, at) matches Some((e, end)) ==> {
                &&& end == at + n + 12 + m
                &&& valid_utf8(k) ==> e.0.user == decode_utf8(k)
                &&& e.0.seq == from_be(data.subrange(at + 2 + n, at + 10 + n))
                &&& m == 0 ==> e.1 is Delete
                &&& m > 0 && valid_utf8(t) ==> e.1 == ValueView::Put(decode_utf8(t))
            }
        }),
{
    let n = 256 * data[at] + data[at + 1];
    law_number_of_bytes(data.subrange(at, at + 2));
    if at + 2 <= data.len() {
        assert(number_at(data, at, 2) == n);
        if at + n + 12 <= data.len() {
            law_number_of_bytes(data.subrange(at + n + 10, at + n + 12));
            lemma_from_be_bound(data.subrange(at + 2 + n, at + 10 + n));
            lemma_be_limits();
        }
    }
}

} // verus!
