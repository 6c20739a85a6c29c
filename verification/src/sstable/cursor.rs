//! Reading the entries of one block.

use std::cmp::Ordering;

use vstd::prelude::*;
use vstd::slice::slice_subrange;
use vstd::utf8::*;

use crate::common::error::{DbError, DbResult, Fault};
use crate::common::key;
use crate::common::key::{Key, KeyView};
use crate::common::text;
use crate::common::value::ValueView;
use crate::common::versions::Entry;
use crate::sstable::checksum;
use crate::sstable::encode;
use crate::sstable::encode::{get_u16, get_u32, get_u64};
use crate::sstable::BLOCK_HEADER;

verus! {

/// A place in a block.
pub struct Cursor<'a> {
    buf: &'a [u8],
    pos: usize,
}

/// A value within a block.
#[derive(Debug)]
pub enum ValueRef<'a> {
    /// A stored text.
    Put(&'a str),
    /// A deletion mark.
    Delete,
}

/// An entry within a block.
#[derive(Debug)]
pub struct EntryRef<'a> {
    /// The user key.
    pub key: &'a str,
    /// The sequence number of the version.
    pub seq: u64,
    /// Its value.
    pub value: ValueRef<'a>,
}

impl<'a> View for ValueRef<'a> {
    type V = ValueView;

    open spec fn view(&self) -> ValueView {
        match self {
            ValueRef::Put(s) => ValueView::Put(s@),
            ValueRef::Delete => ValueView::Delete,
        }
    }
}

impl<'a> View for EntryRef<'a> {
    type V = Entry;

    open spec fn view(&self) -> Entry {
        (KeyView { user: self.key@, seq: self.seq }, self.value@)
    }
}

/// Compares `(user, seq)` with another key.
fn compare_parts(user: &str, seq: u64, other: &str, other_seq: u64) -> (o: Ordering)
    ensures
        o == key::key_ordering(
            KeyView { user: user@, seq },
            KeyView { user: other@, seq: other_seq },
        ),
{
    proof {
        text::lemma_text_irreflexive(user@);
        text::lemma_text_irreflexive(other@);
        if text::text_lt(user@, other@) && text::text_lt(other@, user@) {
            text::lemma_text_transitive(user@, other@, user@);
        }
    }
    match text::compare(user, other) {
        Ordering::Less => Ordering::Less,
        Ordering::Greater => Ordering::Greater,
        Ordering::Equal => {
            if seq == other_seq {
                Ordering::Equal
            } else if seq > other_seq {
                Ordering::Less
            } else {
                Ordering::Greater
            }
        },
    }
}

impl<'a> PartialEq for EntryRef<'a> {
    fn eq(&self, other: &Self) -> (r: bool) {
        self.seq == other.seq && text::same(self.key, other.key)
    }
}

impl<'a> vstd::std_specs::cmp::PartialEqSpecImpl for EntryRef<'a> {
    open spec fn obeys_eq_spec() -> bool {
        true
    }

    open spec fn eq_spec(&self, other: &Self) -> bool {
        self@.0 == other@.0
    }
}

impl<'a> Eq for EntryRef<'a> {

}

impl<'a> PartialEq<Key> for EntryRef<'a> {
    fn eq(&self, other: &Key) -> (r: bool) {
        self.seq == other.1 && text::same(self.key, other.0.as_str())
    }
}

impl<'a> vstd::std_specs::cmp::PartialEqSpecImpl<Key> for EntryRef<'a> {
    open spec fn obeys_eq_spec() -> bool {
        true
    }

    open spec fn eq_spec(&self, other: &Key) -> bool {
        self@.0 == other@
    }
}

impl<'a> PartialOrd for EntryRef<'a> {
    fn partial_cmp(&self, other: &Self) -> (r: Option<Ordering>) {
        Some(compare_parts(self.key, self.seq, other.key, other.seq))
    }
}

impl<'a> vstd::std_specs::cmp::PartialOrdSpecImpl for EntryRef<'a> {
    open spec fn obeys_partial_cmp_spec() -> bool {
        true
    }

    open spec fn partial_cmp_spec(&self, other: &Self) -> Option<Ordering> {
        Some(key::key_ordering(self@.0, other@.0))
    }
}

impl<'a> PartialOrd<Key> for EntryRef<'a> {
    fn partial_cmp(&self, other: &Key) -> (r: Option<Ordering>) {
        Some(compare_parts(self.key, self.seq, other.0.as_str(), other.1))
    }
}

impl<'a> vstd::std_specs::cmp::PartialOrdSpecImpl<Key> for EntryRef<'a> {
    open spec fn obeys_partial_cmp_spec() -> bool {
        true
    }

    open spec fn partial_cmp_spec(&self, other: &Key) -> Option<Ordering> {
        Some(key::key_ordering(self@.0, other@))
    }
}

impl<'a> EntryRef<'a> {
    /// Whether the key of this entry comes before `(user, seq)`.
    pub fn before(&self, user: &str, seq: u64) -> (r: bool)
        ensures
            r == self@.0.lt(KeyView { user: user@, seq }),
    {
        proof {
            key::lemma_key_irreflexive(self@.0);
        }
        match compare_parts(self.key, self.seq, user, seq) {
            Ordering::Less => true,
            _ => false,
        }
    }
}

/// A block: the checksum of its entries, their length, the entries.
pub open spec fn block_bytes(payload: Seq<u8>) -> Seq<u8> {
    encode::be(checksum::crc32(payload) as nat, 4) + encode::be(payload.len(), 2) + payload
}

/// What is wrong with the header of a block, if anything.
pub open spec fn block_fault(buf: Seq<u8>) -> Option<Fault> {
    let len = encode::number_at(buf, 4, 2) as int;
    if buf.len() < 6 {
        Some(Fault::State("corrupt sstable block"@))
    } else if 6 + len > buf.len() {
        Some(Fault::State("invalid block bytes"@))
    } else if checksum::crc32(buf.subrange(6, 6 + len)) != encode::number_at(buf, 0, 4) {
        Some(Fault::State("block corrupted"@))
    } else {
        None
    }
}

/// The entry at `at` and where it ends, if there is a whole one whose texts are
/// valid UTF-8.
pub open spec fn strict_entry_at(data: Seq<u8>, at: int) -> Option<(Entry, int)> {
    match encode::entry_at(data, at) {
        None => None,
        Some((e, end)) => {
            let klen = encode::number_at(data, at, 2);
            let mid = at + 2 + klen + 8;
            if valid_utf8(data.subrange(at + 2, at + 2 + klen)) && valid_utf8(
                data.subrange(mid + 2, end),
            ) {
                Some((e, end))
            } else {
                None
            }
        },
    }
}

fn corrupt() -> (e: DbError)
    ensures
        e.is_state("corrupt sstable block"@),
{
    DbError::invalid_state("corrupt sstable block")
}

impl<'a> Cursor<'a> {
    /// The bytes of the block.
    pub closed spec fn data(&self) -> Seq<u8> {
        self.buf@
    }

    /// Where the cursor stands.
    pub closed spec fn at(&self) -> int {
        self.pos as int
    }

    /// Checks the header of a block and stands at its first entry.
    pub fn new(buf: &'a [u8]) -> (r: DbResult<Self>)
        ensures
            r matches Ok(c) ==> block_fault(buf@) is None && c.data() == buf@ && c.at()
                == BLOCK_HEADER,
            r matches Err(e) ==> block_fault(buf@) matches Some(f) && e.reports(f),
            r is Ok <==> buf@.len() >= 6 && 6 + 256 * buf@[4] + buf@[5] <= buf@.len()
                && checksum::crc32(buf@.subrange(6, 6 + 256 * buf@[4] + buf@[5])) == 0x100_0000
                * buf@[0] + 0x1_0000 * buf@[1] + 0x100 * buf@[2] + buf@[3],
    {
        proof {
            law_block_is_checked(buf@);
        }
        let mut cursor = Self { buf, pos: 0 };
        let checksum: u32 = match cursor.u32() {
            Ok(v) => v,
            Err(e) => {
                return Err(e);
            },
        };
        let len: u16 = match cursor.u16() {
            Ok(v) => v,
            Err(e) => {
                return Err(e);
            },
        };
        if buf.len() - BLOCK_HEADER < len as usize {
            return Err(DbError::invalid_state("invalid block bytes"));
        }
        let payload = slice_subrange(buf, BLOCK_HEADER, BLOCK_HEADER + len as usize);
        let hash: u32 = checksum::checksum(payload);
        if hash != checksum {
            return Err(DbError::invalid_state("block corrupted"));
        }
        Ok(cursor)
    }

    /// Takes the next `n` bytes.
    pub fn take(&mut self, n: usize) -> (r: DbResult<&'a [u8]>)
        ensures
            final(self).data() == old(self).data(),
            r is Ok <==> old(self).at() + n <= old(self).data().len(),
            r matches Ok(s) ==> s@ == old(self).data().subrange(
                old(self).at(),
                old(self).at() + n,
            ) && final(self).at() == old(self).at() + n,
            r matches Err(e) ==> e.is_state("corrupt sstable block"@) && final(self).at() == old(
                self,
            ).at(),
    {
        let len: usize = self.buf.len();
        let end: usize = match self.pos.checked_add(n) {
            Some(end) => end,
            None => {
                return Err(corrupt());
            },
        };
        if end > len {
            return Err(corrupt());
        }
        let s = slice_subrange(self.buf, self.pos, end);
        self.pos = end;
        Ok(s)
    }

    /// Takes a number of one byte.
    pub fn u8(&mut self) -> (r: DbResult<u8>)
        ensures
            final(self).data() == old(self).data(),
            r is Ok <==> old(self).at() + 1 <= old(self).data().len(),
            r matches Ok(v) ==> v == old(self).data()[old(self).at()] && final(self).at() == old(
                self,
            ).at() + 1,
            r matches Err(e) ==> e.is_state("corrupt sstable block"@) && final(self).at() == old(
                self,
            ).at(),
    {
        match self.take(1) {
            Ok(s) => Ok(s[0]),
            Err(e) => Err(e),
        }
    }

    /// Takes a number of two bytes.
    pub fn u16(&mut self) -> (r: DbResult<u16>)
        ensures
            final(self).data() == old(self).data(),
            r is Ok <==> old(self).at() + 2 <= old(self).data().len(),
            r matches Ok(v) ==> v == encode::number_at(old(self).data(), old(self).at(), 2)
                && final(self).at() == old(self).at() + 2,
            r matches Err(e) ==> e.is_state("corrupt sstable block"@) && final(self).at() == old(
                self,
            ).at(),
    {
        match self.take(2) {
            Ok(s) => {
                assert(s@.subrange(0, 2) =~= s@);
                Ok(get_u16(s, 0))
            },
            Err(e) => Err(e),
        }
    }

    /// Takes a number of four bytes.
    pub fn u32(&mut self) -> (r: DbResult<u32>)
        ensures
            final(self).data() == old(self).data(),
            r is Ok <==> old(self).at() + 4 <= old(self).data().len(),
            r matches Ok(v) ==> v == encode::number_at(old(self).data(), old(self).at(), 4)
                && final(self).at() == old(self).at() + 4,
            r matches Err(e) ==> e.is_state("corrupt sstable block"@) && final(self).at() == old(
                self,
            ).at(),
    {
        match self.take(4) {
            Ok(s) => {
                assert(s@.subrange(0, 4) =~= s@);
                Ok(get_u32(s, 0))
            },
            Err(e) => Err(e),
        }
    }

    /// Takes a number of eight bytes.
    pub fn u64(&mut self) -> (r: DbResult<u64>)
        ensures
            final(self).data() == old(self).data(),
            r is Ok <==> old(self).at() + 8 <= old(self).data().len(),
            r matches Ok(v) ==> v == encode::number_at(old(self).data(), old(self).at(), 8)
                && final(self).at() == old(self).at() + 8,
            r matches Err(e) ==> e.is_state("corrupt sstable block"@) && final(self).at() == old(
                self,
            ).at(),
    {
        match self.take(8) {
            Ok(s) => {
                assert(s@.subrange(0, 8) =~= s@);
                Ok(get_u64(s, 0))
            },
            Err(e) => Err(e),
        }
    }

    /// Takes `n` bytes as a text.
    fn text(&mut self, n: usize) -> (r: DbResult<&'a str>)
        ensures
            final(self).data() == old(self).data(),
            final(self).at() >= old(self).at(),
            r is Ok <==> old(self).at() + n <= old(self).data().len() && valid_utf8(
                old(self).data().subrange(old(self).at(), old(self).at() + n),
            ),
            r matches Ok(s) ==> s@ == decode_utf8(
                old(self).data().subrange(old(self).at(), old(self).at() + n),
            ) && final(self).at() == old(self).at() + n,
            r matches Err(e) ==> e.is_state("corrupt sstable block"@),
    {
        match self.take(n) {
            Ok(s) => match text::from_utf8(s) {
                Some(t) => Ok(t),
                None => Err(corrupt()),
            },
            Err(e) => Err(e),
        }
    }

    /// Takes the next entry, if there is one.
    pub fn next_entry(&mut self) -> (r: DbResult<Option<EntryRef<'a>>>)
        ensures
            final(self).data() == old(self).data(),
            final(self).at() >= old(self).at(),
            r matches Ok(None) ==> old(self).at() >= old(self).data().len() && final(self).at()
                == old(self).at(),
            r matches Ok(Some(e)) ==> old(self).at() < old(self).data().len() && strict_entry_at(
                old(self).data(),
                old(self).at(),
            ) == Some((e@, final(self).at())),
            r matches Err(e) ==> old(self).at() < old(self).data().len() && strict_entry_at(
                old(self).data(),
                old(self).at(),
            ) is None && e.is_state("corrupt sstable block"@),
    {
        if self.pos >= self.buf.len() {
            return Ok(None);
        }
        let klen: u16 = match self.u16() {
            Ok(v) => v,
            Err(e) => {
                return Err(e);
            },
        };
        let key = match self.text(klen as usize) {
            Ok(v) => v,
            Err(e) => {
                return Err(e);
            },
        };
        let seq: u64 = match self.u64() {
            Ok(v) => v,
            Err(e) => {
                return Err(e);
            },
        };
        let vlen: u16 = match self.u16() {
            Ok(v) => v,
            Err(e) => {
                return Err(e);
            },
        };
        if vlen == 0 {
            proof {
                let end = self.at();
                assert(self.data().subrange(end, end) =~= encode_utf8(Seq::<char>::empty()));
                text::lemma_read_encoded(Seq::<char>::empty());
            }
            return Ok(Some(EntryRef { key, seq, value: ValueRef::Delete }));
        }
        match self.text(vlen as usize) {
            Ok(v) => Ok(Some(EntryRef { key, seq, value: ValueRef::Put(v) })),
            Err(e) => Err(e),
        }
    }

    /// Where the cursor stands.
    pub fn position(&self) -> (pos: usize)
        ensures
            pos == self.at(),
    {
        self.pos
    }

    /// Moves the cursor.
    pub fn seek_to(&mut self, pos: usize)
        ensures
            final(self).data() == old(self).data(),
            final(self).at() == pos,
    {
        self.pos = pos;
    }
}

/// A block that was written has a good header.
pub proof fn law_block_checks(payload: Seq<u8>)
    requires
        payload.len() <= u16::MAX,
    ensures
        block_bytes(payload).len() == 6 + payload.len(),
        block_fault(block_bytes(payload)) is None,
        encode::number_at(block_bytes(payload), 4, 2) == payload.len(),
        block_bytes(payload).skip(6) == payload,
{
    let b = block_bytes(payload);
    encode::lemma_be(checksum::crc32(payload) as nat, 4);
    encode::lemma_be(payload.len(), 2);
    encode::lemma_be_limits();
    assert(b.subrange(0, 4) =~= encode::be(checksum::crc32(payload) as nat, 4));
    assert(b.subrange(4, 6) =~= encode::be(payload.len(), 2));
    assert(b.subrange(6, 6 + payload.len() as int) =~= payload);
    assert(b.skip(6) =~= payload);
}

/// An entry that was written is taken back, an empty text as a deletion mark.
pub proof fn law_strict_round_trip(data: Seq<u8>, at: int, e: Entry)
    requires
        0 <= at,
        at + encode::entry_bytes(e).len() <= data.len(),
        data.subrange(at, at + encode::entry_bytes(e).len()) == encode::entry_bytes(e),
        encode::entry_fits(e),
    ensures
        strict_entry_at(data, at) == Some(
            ((e.0, e.1.stored()), at + encode::entry_bytes(e).len()),
        ),
{
    reveal(encode::entry_bytes);
    encode::law_entry_round_trip(data, at, e);
    encode::lemma_entry_len(e);
    encode::lemma_be(e.0.text_len(), 2);
    encode::lemma_be(e.0.seq as nat, 8);
    encode::lemma_be(e.1.text_len(), 2);
    encode::lemma_be_limits();
    let s = data.subrange(at, at + encode::entry_bytes(e).len());
    let n = e.0.text_len() as int;
    let m = s.len() as int;
    assert(data.subrange(at, at + 2) =~= s.subrange(0, 2));
    assert(s.subrange(0, 2) =~= encode::be(e.0.text_len(), 2));
    assert(data.subrange(at + 2, at + 2 + n) =~= s.subrange(2, 2 + n));
    assert(s.subrange(2, 2 + n) =~= encode_utf8(e.0.user));
    assert(data.subrange(at + n + 12, at + m) =~= s.subrange(n + 12, m));
    assert(s.subrange(n + 12, m) =~= encode::value_text(e.1));
    text::lemma_read_encoded(e.0.user);
    match e.1 {
        ValueView::Put(t) => {
            text::lemma_read_encoded(t);
        },
        ValueView::Delete => {
            assert(encode::value_text(e.1) =~= encode_utf8(Seq::<char>::empty()));
            text::lemma_read_encoded(Seq::<char>::empty());
        },
    }
}

/// A block is read exactly when it has a header, the payload that the header announces
/// is there, and the checksum in the header is that of the payload, whatever its
/// length.
pub proof fn law_block_is_checked(buf: Seq<u8>)
    ensures
        ({
            let len = 256 * buf[4] + buf[5];
            let sum = 0x100_0000 * buf[0] + 0x1_0000 * buf[1] + 0x100 * buf[2] + buf[3];
            &&& block_fault(buf) is None <==> buf.len() >= 6 && 6 + len <= buf.len()
                && checksum::crc32(buf.subrange(6, 6 + len)) == sum
            &&& buf.len() < 6 ==> block_fault(buf) == Some(
                Fault::State("corrupt sstable block"@),
            )
            &&& buf.len() >= 6 && 6 + len > buf.len() ==> block_fault(buf) == Some(
                Fault::State("invalid block bytes"@),
            )
            &&& buf.len() >= 6 && 6 + len <= buf.len() && checksum::crc32(
                buf.subrange(6, 6 + len),
            ) != sum ==> block_fault(buf) == Some(Fault::State("block corrupted"@))
        }),
{
    if buf.len() >= 6 {
        encode::law_number_of_bytes(buf.subrange(0, 4));
        encode::law_number_of_bytes(buf.subrange(4, 6));
    }
}

/// A block that was written is refused when one byte of its payload or of its checksum
/// is damaged.
pub proof fn law_damaged_block_is_refused(payload: Seq<u8>, i: int, b: u8)
    requires
        payload.len() <= 65535,
        0 <= i < 6 + payload.len(),
        !(4 <= i < 6),
        block_bytes(payload)[i] != b,
    ensures
        block_fault(block_bytes(payload).update(i, b)) == Some(Fault::State("block corrupted"@)),
{
    let (blk, bad) = (block_bytes(payload), block_bytes(payload).update(i, b));
    let n = payload.len() as int;
    law_block_checks(payload);
    law_block_is_checked(blk);
    law_block_is_checked(bad);
    encode::law_two_bytes(payload.len());
    encode::lemma_be(checksum::crc32(payload) as nat, 4);
    assert(blk[4] == payload.len() / 256 && blk[5] == payload.len() % 256) by {
        assert(blk.subrange(4, 6) =~= encode::be(payload.len(), 2));
        assert(blk[4] == blk.subrange(4, 6)[0] && blk[5] == blk.subrange(4, 6)[1]);
    }
    assert(blk.subrange(6, 6 + n) =~= payload);
    if i >= 6 {
        assert(bad.subrange(6, 6 + n) =~= payload.update(i - 6, b));
        assert(payload[i - 6] == blk[i]);
        checksum::law_damaged_byte_changes_checksum(payload, i - 6, b);
    } else {
        assert(bad.subrange(6, 6 + n) =~= payload);
    }
}

} // verus!
