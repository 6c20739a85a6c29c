//! What the engine keeps of a table in memory.

use vstd::prelude::*;

use crate::common::error::{unexpected_eof, DbError, DbResult, Fault};
use crate::common::key::{Key, KeyView};
use crate::common::text;
use crate::sstable::bloom::BloomFilter;
use crate::sstable::encode;
use crate::sstable::encode::read_key;
use crate::sstable::footer::{Footer, FOOTER_LEN};
use crate::sstable::index;
use crate::sstable::index::{IndexView, IndexedKey};

verus! {

/// The filter, the index and the footer of a table, and the ends of its keys.
#[derive(Debug)]
pub struct SSTableMeta {
    /// Where the file is.
    pub path: String,
    /// Bytes of the file.
    pub file_size: u64,
    /// The filter of the keys.
    pub bloom: BloomFilter,
    /// The first key.
    pub first_key: Key,
    /// The last key.
    pub last_key: Key,
    /// The footer.
    pub footer: Footer,
    /// The index of the blocks.
    pub index: Vec<IndexedKey>,
}

/// The mathematical content of an [`SSTableMeta`], its path apart.
pub struct MetaView {
    /// Bytes of the file.
    pub file_size: u64,
    /// The bytes of the filter.
    pub bloom: Seq<u8>,
    /// The first key.
    pub first_key: KeyView,
    /// The last key.
    pub last_key: KeyView,
    /// The footer.
    pub footer: Footer,
    /// The index of the blocks.
    pub index: Seq<IndexView>,
}

impl View for SSTableMeta {
    type V = MetaView;

    open spec fn view(&self) -> MetaView {
        MetaView {
            file_size: self.file_size,
            bloom: self.bloom@,
            first_key: self.first_key@,
            last_key: self.last_key@,
            footer: self.footer,
            index: index::views(self.index@),
        }
    }
}

/// `rest` behind `first`, unless reading the rest failed.
pub open spec fn joined(first: Seq<IndexView>, rest: Result<Seq<IndexView>, Fault>) -> Result<
    Seq<IndexView>,
    Fault,
> {
    match rest {
        Ok(xs) => Ok(first + xs),
        Err(f) => Err(f),
    }
}

/// What reading index entries of `len` bytes from `at` on gives.
pub open spec fn parsed_index(data: Seq<u8>, at: int, len: int) -> Result<Seq<IndexView>, Fault>
    decreases len,
{
    if len <= 0 {
        Ok(Seq::empty())
    } else {
        match index::index_at(data, at) {
            None => Err(Fault::Eof),
            Some((x, end)) => if x.size() > len {
                Err(Fault::State("index length does not match entries"@))
            } else {
                joined(seq![x], parsed_index(data, end, len - x.size()))
            },
        }
    }
}

/// What reading a filter gives.
pub open spec fn parsed_bloom(data: Seq<u8>, at: int, len: int) -> Result<Seq<u8>, Fault> {
    if len == 0 {
        Ok(Seq::empty())
    } else if at + len > data.len() {
        Err(Fault::Eof)
    } else {
        Ok(data.subrange(at, at + len))
    }
}

/// What reading the metadata of the table file `data` gives.
pub open spec fn parsed_meta(data: Seq<u8>) -> Result<MetaView, Fault> {
    if data.len() < FOOTER_LEN {
        Err(Fault::State("cannot read metadata: file empty"@))
    } else {
        match Footer::parsed(data, data.len() - FOOTER_LEN) {
            Err(f) => Err(f),
            Ok(footer) => match parsed_bloom(
                data,
                footer.bloom_off as int,
                footer.bloom_len as int,
            ) {
                Err(f) => Err(f),
                Ok(bloom) => match encode::key_at(data, 6) {
                    None => Err(Fault::Eof),
                    Some((first_key, _)) => match parsed_index(
                        data,
                        footer.index_off as int,
                        footer.index_len as int,
                    ) {
                        Err(f) => Err(f),
                        Ok(index) => if index.len() == 0 {
                            Err(Fault::State("cannot load last table's key"@))
                        } else {
                            Ok(
                                MetaView {
                                    file_size: data.len() as u64,
                                    bloom,
                                    first_key,
                                    last_key: index.last().key,
                                    footer,
                                    index,
                                },
                            )
                        },
                    },
                },
            },
        }
    }
}

impl SSTableMeta {
    /// The filter is small enough to count its bits.
    pub open spec fn wf(&self) -> bool {
        self.bloom.wf()
    }

    /// Reads the metadata of the table file `data`, which stands at `path`.
    pub fn read(path: &str, data: &[u8]) -> (r: DbResult<Self>)
        ensures
            r matches Ok(m) ==> m.wf() && m.path@ == path@ && parsed_meta(data@) == Ok::<
                MetaView,
                Fault,
            >(m@),
            r matches Err(e) ==> parsed_meta(data@) matches Err(f) && e.reports(f),
    {
        let file_size: u64 = data.len() as u64;
        if data.len() < FOOTER_LEN {
            return Err(DbError::invalid_state("cannot read metadata: file empty"));
        }
        let footer = match Footer::read(data, data.len() - FOOTER_LEN) {
            Ok(footer) => footer,
            Err(e) => {
                return Err(e);
            },
        };
        let bloom = match BloomFilter::read(data, footer.bloom_off, footer.bloom_len) {
            Ok(bloom) => bloom,
            Err(e) => {
                return Err(e);
            },
        };
        let first_key = match read_key(data, 6) {
            Ok((key, _)) => key,
            Err(e) => {
                return Err(e);
            },
        };
        let index = match Self::index(data, footer.index_off, footer.index_len) {
            Ok(index) => index,
            Err(e) => {
                return Err(e);
            },
        };
        if index.len() == 0 {
            return Err(DbError::invalid_state("cannot load last table's key"));
        }
        let last_key = index[index.len() - 1].key.clone();
        Ok(Self { path: path.to_owned(), file_size, bloom, first_key, last_key, footer, index })
    }

    /// Reads index entries of `len` bytes from `offset` on.
    fn index(data: &[u8], offset: u64, len: u32) -> (r: DbResult<Vec<IndexedKey>>)
        ensures
            r matches Ok(v) ==> parsed_index(data@, offset as int, len as int) == Ok::<
                Seq<IndexView>,
                Fault,
            >(index::views(v@)),
            r matches Err(e) ==> parsed_index(data@, offset as int, len as int) matches Err(f)
                && e.reports(f),
    {
        let mut index: Vec<IndexedKey> = Vec::new();
        if len == 0 {
            assert(index::views(index@) =~= Seq::<IndexView>::empty());
            return Ok(index);
        }
        if offset > data.len() as u64 {
            return Err(DbError::IO(unexpected_eof()));
        }
        let mut at: usize = offset as usize;
        let mut left: usize = len as usize;
        let ghost whole = parsed_index(data@, offset as int, len as int);
        assert(whole == joined(index::views(index@), whole)) by {
            if let Ok(xs) = whole {
                assert(index::views(index@) + xs =~= xs);
            }
        }
        while left > 0
            invariant
                at <= data@.len(),
                whole == parsed_index(data@, offset as int, len as int),
                whole == joined(index::views(index@), parsed_index(data@, at as int, left as int)),
            decreases left,
        {
            match IndexedKey::read(data, at) {
                Err(e) => {
                    assert(whole == Err::<Seq<IndexView>, Fault>(Fault::Eof));
                    return Err(e);
                },
                Ok((key, end)) => {
                    let key_len: usize = text::byte_len(key.key.0.as_str());
                    if left < 20 || key_len > left - 20 {
                        return Err(DbError::invalid_state("index length does not match entries"));
                    }
                    let ghost rest = parsed_index(data@, end as int, left - key@.size());
                    let ghost before = index@;
                    at = end;
                    left -= key_len + 20;
                    index.push(key);
                    proof {
                        assert(index::views(index@) =~= index::views(before) + seq![key@]);
                        if let Ok(xs) = rest {
                            assert(index::views(before) + (seq![key@] + xs) =~= index::views(index@)
                                + xs);
                        }
                    }
                },
            }
        }
        assert(index::views(index@) + Seq::<IndexView>::empty() =~= index::views(index@));
        Ok(index)
    }

    /// Lowest sequence number in the table.
    pub fn smallest_seq(&self) -> (r: u64)
        ensures
            r == self@.footer.smallest_seq,
    {
        self.footer.smallest_seq
    }

    /// Highest sequence number in the table.
    pub fn largest_seq(&self) -> (r: u64)
        ensures
            r == self@.footer.largest_seq,
    {
        self.footer.largest_seq
    }

    /// Number of entries in the table.
    pub fn entries(&self) -> (r: u64)
        ensures
            r == self@.footer.entries,
    {
        self.footer.entries
    }
}

impl Clone for SSTableMeta {
    fn clone(&self) -> (r: Self)
        ensures
            r@ == self@,
            r.path@ == self.path@,
    {
        let mut index: Vec<IndexedKey> = Vec::new();
        let mut i: usize = 0;
        while i < self.index.len()
            invariant
                i <= self.index@.len(),
                index@ == self.index@.take(i as int),
            decreases self.index@.len() - i,
        {
            index.push(self.index[i].clone());
            i += 1;
            assert(index@ =~= self.index@.take(i as int));
        }
        assert(index@ =~= self.index@);
        SSTableMeta {
            path: self.path.clone(),
            file_size: self.file_size,
            bloom: self.bloom.clone(),
            first_key: self.first_key.clone(),
            last_key: self.last_key.clone(),
            footer: self.footer,
            index,
        }
    }
}

/// Index entries that were written are read back.
pub proof fn law_index_list_round_trip(data: Seq<u8>, at: int, xs: Seq<IndexView>)
    requires
        0 <= at,
        at + index::index_bytes(xs).len() <= data.len(),
        data.subrange(at, at + index::index_bytes(xs).len()) == index::index_bytes(xs),
        forall|i: int| 0 <= i < xs.len() ==> encode::fits((#[trigger] xs[i]).key.text_len()),
    ensures
        parsed_index(data, at, index::index_bytes(xs).len() as int) == Ok::<Seq<IndexView>, Fault>(
            xs,
        ),
    decreases xs.len(),
{
    if xs.len() == 0 {
        assert(xs =~= Seq::<IndexView>::empty());
    } else {
        let x = xs[0];
        let rest = xs.drop_first();
        index::lemma_index_bytes_first(xs);
        index::lemma_index_len(x);
        let s = data.subrange(at, at + index::index_bytes(xs).len());
        let n = x.size() as int;
        assert(s.subrange(0, n) =~= x.bytes());
        assert(data.subrange(at, at + n) =~= s.subrange(0, n));
        index::law_index_round_trip(data, at, x);
        let m = index::index_bytes(xs).len() as int;
        assert(s.subrange(n, m) =~= index::index_bytes(rest));
        assert(data.subrange(at + n, at + m) =~= s.subrange(n, m));
        assert forall|i: int| 0 <= i < rest.len() implies encode::fits(
            (#[trigger] rest[i]).key.text_len(),
        ) by {
            assert(rest[i] == xs[i + 1]);
        }
        law_index_list_round_trip(data, at + n, rest);
        assert(seq![x] + rest =~= xs);
    }
}

/// A file that is shorter than a footer, or that does not end with the number of a
/// table, is no table.
pub proof fn law_no_table(data: Seq<u8>)
    ensures
        data.len() < 56 ==> parsed_meta(data) == Err::<MetaView, Fault>(
            Fault::State("cannot read metadata: file empty"@),
        ),
        data.len() >= 56 && encode::from_be(
            data.subrange(data.len() - 4, data.len() as int),
        ) != 0x5354_424C ==> parsed_meta(data) == Err::<MetaView, Fault>(
            Fault::State("bad sstable magic"@),
        ),
{
    if data.len() >= 56 {
        encode::lemma_number_4(data, data.len() - 4);
    }
}

} // verus!
