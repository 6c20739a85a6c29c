//! The index of a table: the last key of each block and where the block is.

use vstd::prelude::*;

use crate::common::error::{unexpected_eof, DbError, DbResult};
use crate::common::key::{Key, KeyView};
use crate::sstable::encode;
use crate::sstable::encode::{encode_key, get_u16, get_u64, put_u16, put_u64, read_key};

verus! {

/// The last key of a block and the place of the block in the file.
#[derive(Debug)]
pub struct IndexedKey {
    /// The last key of the block.
    pub key: Key,
    /// Where the block begins.
    pub block_off: u64,
    /// How long the block is, its header included.
    pub block_len: u16,
}

/// The mathematical content of an [`IndexedKey`].
pub struct IndexView {
    /// The last key of the block.
    pub key: KeyView,
    /// Where the block begins.
    pub off: u64,
    /// How long the block is, its header included.
    pub len: u16,
}

impl View for IndexedKey {
    type V = IndexView;

    open spec fn view(&self) -> IndexView {
        IndexView { key: self.key@, off: self.block_off, len: self.block_len }
    }
}

impl IndexView {
    /// Bytes that this takes in a file.
    pub open spec fn size(self) -> nat {
        2 + self.key.text_len() + 8 + 8 + 2
    }

    /// The bytes in a file.
    pub open spec fn bytes(self) -> Seq<u8> {
        encode::key_bytes(self.key) + encode::be(self.off as nat, 8) + encode::be(
            self.len as nat,
            2,
        )
    }
}

/// The views of an index.
pub open spec fn views(index: Seq<IndexedKey>) -> Seq<IndexView> {
    Seq::new(index.len(), |i: int| index[i]@)
}

/// The bytes of an index in a file.
pub open spec fn index_bytes(index: Seq<IndexView>) -> Seq<u8>
    decreases index.len(),
{
    if index.len() == 0 {
        Seq::empty()
    } else {
        index_bytes(index.drop_last()) + index.last().bytes()
    }
}

/// The index entry at `at` and where it ends, unless the data ends before it does.
pub open spec fn index_at(data: Seq<u8>, at: int) -> Option<(IndexView, int)> {
    match encode::key_at(data, at) {
        None => None,
        Some((key, mid)) => if mid + 10 > data.len() {
            None
        } else {
            Some(
                (
                    IndexView {
                        key,
                        off: encode::number_at(data, mid, 8) as u64,
                        len: encode::number_at(data, mid + 8, 2) as u16,
                    },
                    mid + 10,
                ),
            )
        },
    }
}

impl IndexedKey {
    /// An index entry for a block.
    pub fn new(key: Key, block_off: u64, block_len: u16) -> (r: Self)
        ensures
            r.key == key,
            r@ == (IndexView { key: key@, off: block_off, len: block_len }),
    {
        Self { key, block_off, block_len }
    }

    /// Bytes that this takes in a file.
    pub fn disk_size(&self) -> (n: usize)
        requires
            self@.size() <= usize::MAX,
        ensures
            n == self@.size(),
    {
        self.key.disk_size() + 8 + 2
    }

    /// Appends the index entry. A key that is too long is refused.
    pub fn write_to_buf(&self, buf: &mut Vec<u8>) -> (r: DbResult<()>)
        ensures
            r is Ok <==> encode::fits(self@.key.text_len()),
            r is Ok ==> final(buf)@ == old(buf)@ + self@.bytes(),
            r matches Err(e) ==> e is InvalidInt && final(buf)@ == old(buf)@,
    {
        match encode_key(buf, &self.key) {
            Err(e) => Err(e),
            Ok(_) => {
                put_u64(buf, self.block_off);
                put_u16(buf, self.block_len);
                assert(buf@ =~= old(buf)@ + self@.bytes());
                Ok(())
            },
        }
    }

    /// Reads an index entry. Returns it and where it ends.
    pub fn read(data: &[u8], at: usize) -> (r: DbResult<(Self, usize)>)
        requires
            at <= data@.len(),
        ensures
            r matches Ok((x, end)) ==> index_at(data@, at as int) == Some((x@, end as int)) && end
                <= data@.len(),
            r matches Err(e) ==> e is IO && index_at(data@, at as int) is None,
    {
        match read_key(data, at) {
            Err(e) => Err(e),
            Ok((key, mid)) => {
                if data.len() - mid < 10 {
                    return Err(DbError::IO(unexpected_eof()));
                }
                let block_off: u64 = get_u64(data, mid);
                let block_len: u16 = get_u16(data, mid + 8);
                Ok((Self { key, block_off, block_len }, mid + 10))
            },
        }
    }
}

impl Clone for IndexedKey {
    fn clone(&self) -> (r: Self)
        ensures
            r == *self,
    {
        IndexedKey {
            key: self.key.clone(),
            block_off: self.block_off,
            block_len: self.block_len,
        }
    }
}

/// How many bytes an index entry takes.
pub proof fn lemma_index_len(x: IndexView)
    ensures
        x.bytes().len() == x.size(),
{
    encode::lemma_be(x.key.text_len(), 2);
    encode::lemma_be(x.key.seq as nat, 8);
    encode::lemma_be(x.off as nat, 8);
    encode::lemma_be(x.len as nat, 2);
}

/// The bytes of an index begin with those of its first entry.
pub proof fn lemma_index_bytes_first(xs: Seq<IndexView>)
    requires
        xs.len() > 0,
    ensures
        index_bytes(xs) == xs[0].bytes() + index_bytes(xs.drop_first()),
    decreases xs.len(),
{
    let rest = xs.drop_first();
    if xs.len() == 1 {
        assert(xs.drop_last() =~= Seq::<IndexView>::empty());
        assert(rest =~= Seq::<IndexView>::empty());
        assert(index_bytes(xs) =~= xs[0].bytes() + index_bytes(rest));
    } else {
        lemma_index_bytes_first(xs.drop_last());
        assert(xs.drop_last().drop_first() =~= rest.drop_last());
        assert(index_bytes(xs) =~= xs[0].bytes() + index_bytes(rest));
    }
}

/// An index entry that was written is read back.
pub proof fn law_index_round_trip(data: Seq<u8>, at: int, x: IndexView)
    requires
        0 <= at,
        at + x.size() <= data.len(),
        data.subrange(at, at + x.size()) == x.bytes(),
        encode::fits(x.key.text_len()),
    ensures
        index_at(data, at) == Some((x, at + x.size())),
{
    lemma_index_len(x);
    encode::lemma_be(x.key.text_len(), 2);
    encode::lemma_be(x.key.seq as nat, 8);
    encode::lemma_be(x.off as nat, 8);
    encode::lemma_be(x.len as nat, 2);
    encode::lemma_be_limits();
    let s = data.subrange(at, at + x.size());
    let n = encode::key_bytes(x.key).len() as int;
    assert(data.subrange(at, at + n) =~= s.subrange(0, n));
    assert(s.subrange(0, n) =~= encode::key_bytes(x.key));
    encode::law_key_round_trip(data, at, x.key);
    assert(data.subrange(at + n, at + n + 8) =~= s.subrange(n, n + 8));
    assert(s.subrange(n, n + 8) =~= encode::be(x.off as nat, 8));
    assert(data.subrange(at + n + 8, at + n + 10) =~= s.subrange(n + 8, n + 10));
    assert(s.subrange(n + 8, n + 10) =~= encode::be(x.len as nat, 2));
}

} // verus!
