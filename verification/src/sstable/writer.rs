//! Writing a table.

use vstd::prelude::*;
use vstd::string::*;
use vstd::utf8::*;

use crate::common::error::{DbError, DbResult};
use crate::common::key::{Key, KeyView};
use crate::common::path;
use crate::common::text;
use crate::common::value::{Value, ValueView};
use crate::common::versions::Entry;
use crate::sstable::bloom;
use crate::sstable::bloom::BloomFilter;
use crate::sstable::checksum;
use crate::sstable::cursor;
use crate::sstable::encode;
use crate::sstable::encode::{encode, put_u16, put_u32, set_u16, set_u32, short_len};
use crate::sstable::footer::{Footer, MAGIC};
use crate::sstable::index;
use crate::sstable::index::{IndexView, IndexedKey};
use crate::sstable::meta::{MetaView, SSTableMeta};
use crate::sstable::BLOCK_HEADER;

verus! {

/// A block is closed once it is longer than this.
pub const BLOCK_SIZE: usize = 4096;

/// Bits of the filter for each user key.
pub const BITS_PER_KEY: usize = 10;

/// Takes the entries of a table in key order and lays out its file.
pub struct SSTableWriter {
    path: String,
    tmp: String,
    file: Vec<u8>,
    block: Vec<u8>,
    index_bytes: Vec<u8>,
    index: Vec<IndexedKey>,
    hashes: Vec<u64>,
    entries: u64,
    first_key: Option<Key>,
    last_key: Option<Key>,
    smallest_seq: u64,
    largest_seq: u64,
}

/// Where the file of a table is written before it takes its place.
pub fn tmp_path(path: &str) -> (r: String)
    ensures
        r@ == path::extended(path@, "sst.tmp"@),
{
    path::with_extension(path, "sst.tmp")
}

/// Why a writer does not take an entry.
pub enum Refusal {
    /// Its key, the first one here, comes before the last key, the second one.
    Order(KeyView, KeyView),
    /// A text or a block is too long.
    Size,
}

/// The mathematical content of an [`SSTableWriter`].
pub struct WriterView {
    /// The blocks that have been closed.
    pub file: Seq<u8>,
    /// The block that is open, with room for its header.
    pub block: Seq<u8>,
    /// The index of the closed blocks.
    pub index: Seq<IndexView>,
    /// The hashes of the user keys.
    pub hashes: Seq<u64>,
    /// Number of entries.
    pub entries: u64,
    /// The first key.
    pub first: Option<KeyView>,
    /// The last key.
    pub last: Option<KeyView>,
    /// Lowest sequence number.
    pub smallest: u64,
    /// Highest sequence number.
    pub largest: u64,
}

/// A block without entries.
pub open spec fn empty_block() -> Seq<u8> {
    encode::be(0, 4) + encode::be(0, 2)
}

impl WriterView {
    /// A writer without entries.
    pub open spec fn empty() -> WriterView {
        WriterView {
            file: Seq::empty(),
            block: empty_block(),
            index: Seq::empty(),
            hashes: Seq::empty(),
            entries: 0,
            first: None,
            last: None,
            smallest: 0,
            largest: 0,
        }
    }

    /// The writer once the hash of a user key has been noted, which happens when
    /// it is not that of the last entry.
    pub open spec fn hashed(self, k: KeyView) -> WriterView {
        if self.last matches Some(l) && l.user == k.user {
            self
        } else {
            WriterView { hashes: self.hashes.push(bloom::key_hash(k.user)), ..self }
        }
    }

    /// The writer with more bytes in its open block.
    pub open spec fn filled(self, bytes: Seq<u8>) -> WriterView {
        WriterView { block: self.block + bytes, ..self }
    }

    /// The writer once it has counted an entry.
    pub open spec fn counted(self, k: KeyView) -> WriterView {
        WriterView {
            entries: (self.entries + 1) as u64,
            first: if self.first is None {
                Some(k)
            } else {
                self.first
            },
            last: Some(k),
            smallest: if self.first is None || k.seq < self.smallest {
                k.seq
            } else {
                self.smallest
            },
            largest: if self.first is None || k.seq > self.largest {
                k.seq
            } else {
                self.largest
            },
            ..self
        }
    }

    /// The writer once its open block has been closed.
    pub open spec fn closed(self) -> WriterView {
        if self.block.len() <= BLOCK_HEADER {
            self
        } else {
            WriterView {
                file: self.file + cursor::block_bytes(self.block.skip(6)),
                index: self.index.push(
                    IndexView {
                        key: self.last->0,
                        off: self.file.len() as u64,
                        len: self.block.len() as u16,
                    },
                ),
                block: empty_block(),
                ..self
            }
        }
    }

    /// The writer after an attempt to close a block that is too long.
    pub open spec fn stuck(self) -> WriterView {
        WriterView {
            block: encode::overwritten(
                self.block,
                0,
                encode::be(checksum::crc32(self.block.skip(6)) as nat, 4),
            ),
            ..self
        }
    }

    /// What adding an entry makes of the writer, and why it is refused if it is.
    pub open spec fn step(self, e: Entry) -> (WriterView, Option<Refusal>) {
        let noted = self.hashed(e.0);
        let taken = noted.filled(encode::entry_bytes(e)).counted(e.0);
        if self.last matches Some(l) && e.0.lt(l) {
            (self, Some(Refusal::Order(e.0, self.last->0)))
        } else if !encode::fits(e.0.text_len()) {
            (noted, Some(Refusal::Size))
        } else if !encode::fits(e.1.text_len()) {
            (noted.filled(encode::key_bytes(e.0)), Some(Refusal::Size))
        } else if taken.block.len() <= BLOCK_SIZE {
            (taken, None)
        } else if taken.block.len() > u16::MAX {
            (taken.stuck(), Some(Refusal::Size))
        } else {
            (taken.closed(), None)
        }
    }

    /// Whether the filter and the index are short enough for the footer.
    pub open spec fn describable(self) -> bool {
        &&& self.hashes.len() * BITS_PER_KEY + 7 <= usize::MAX
        &&& bloom::filter_size(self.hashes.len(), BITS_PER_KEY as nat) + 1 <= u32::MAX
        &&& index::index_bytes(self.index).len() <= u32::MAX
    }

    /// The footer of the table, whose filter is `bloom`.
    pub open spec fn footer(self, bloom: Seq<u8>) -> Footer {
        Footer {
            entries: self.entries,
            bloom_off: self.file.len() as u64,
            bloom_len: bloom.len() as u32,
            index_off: (self.file.len() + bloom.len()) as u64,
            index_len: index::index_bytes(self.index).len() as u32,
            index_count: self.index.len() as u32,
            smallest_seq: self.smallest,
            largest_seq: self.largest,
            magic: MAGIC,
        }
    }

    /// The file of the table, whose filter is `bloom`.
    pub open spec fn table(self, bloom: Seq<u8>) -> Seq<u8> {
        self.file + bloom + index::index_bytes(self.index) + self.footer(bloom).bytes()
    }

    /// The metadata of the table, whose filter is `bloom`.
    pub open spec fn meta(self, bloom: Seq<u8>) -> MetaView {
        MetaView {
            file_size: self.table(bloom).len() as u64,
            bloom,
            first_key: self.first->0,
            last_key: self.last->0,
            footer: self.footer(bloom),
            index: self.index,
        }
    }
}

/// Whether `r` is what completing the table of the writer `w` at `path` gives:
/// the table, or nothing when there are no entries, or an error when the last
/// block, the filter or the index is too long.
pub open spec fn finished(
    r: DbResult<Option<(SSTableMeta, Vec<u8>)>>,
    w: WriterView,
    path: Seq<char>,
) -> bool {
    match r {
        Ok(None) => w.entries == 0,
        Ok(Some((m, bytes))) => {
            &&& w.entries > 0
            &&& w.block.len() <= u16::MAX
            &&& w.closed().describable()
            &&& m.wf()
            &&& m.path@ == path
            &&& bloom::is_filter(m.bloom@, w.hashes, BITS_PER_KEY as nat)
            &&& m@ == w.closed().meta(m.bloom@)
            &&& bytes@ == w.closed().table(m.bloom@)
            &&& bytes@.len() <= u64::MAX
        },
        Err(e) => {
            &&& w.entries > 0
            &&& w.block.len() > u16::MAX || !w.closed().describable()
            &&& e is InvalidInt
        },
    }
}

/// The message for an entry that comes too late.
pub open spec fn order_message(k: KeyView, last: KeyView) -> Seq<char> {
    "key: "@ + k.shown() + " < last: "@ + last.shown()
}

fn order_error(key: &Key, last: &Key) -> (e: DbError)
    ensures
        e.is_value(order_message(key@, last@)),
{
    let mut s = "key: ".to_owned();
    let shown = key.show();
    s.append(shown.as_str());
    s.append(" < last: ");
    let shown = last.show();
    s.append(shown.as_str());
    assert(s@ =~= order_message(key@, last@));
    DbError::InvalidValue(s)
}

fn reset_block(block: &mut Vec<u8>)
    requires
        old(block)@.len() == 0,
    ensures
        final(block)@ == empty_block(),
{
    put_u32(block, 0);
    put_u16(block, 0);
    assert(block@ =~= empty_block());
}

proof fn lemma_empty_block()
    ensures
        empty_block().len() == 6,
{
    encode::lemma_be(0, 4);
    encode::lemma_be(0, 2);
}

/// The content of a key that may be there.
pub open spec fn key_view(k: Option<Key>) -> Option<KeyView> {
    match k {
        Some(k) => Some(k@),
        None => None,
    }
}

impl View for SSTableWriter {
    type V = WriterView;

    closed spec fn view(&self) -> WriterView {
        WriterView {
            file: self.file@,
            block: self.block@,
            index: index::views(self.index@),
            hashes: self.hashes@,
            entries: self.entries,
            first: key_view(self.first_key),
            last: key_view(self.last_key),
            smallest: self.smallest_seq,
            largest: self.largest_seq,
        }
    }
}

impl SSTableWriter {
    /// Where the table goes.
    pub closed spec fn target(&self) -> Seq<char> {
        self.path@
    }

    /// The bytes of the index are at hand, and what has been counted was written.
    pub closed spec fn wf(&self) -> bool {
        &&& self.index_bytes@ == index::index_bytes(index::views(self.index@))
        &&& self.block@.len() >= 6
        &&& self.entries * 12 <= self.file@.len() + self.block@.len()
        &&& self.entries > 0 ==> self.first_key is Some && self.last_key is Some
        &&& self.last_key matches Some(k) ==> encode::fits(k@.text_len())
        &&& self.tmp@ == path::extended(self.path@, "sst.tmp"@)
    }

    /// A writer for a table at `path`.
    pub fn create(path: &str) -> (r: Self)
        ensures
            r.wf(),
            r@ == WriterView::empty(),
            r.target() == path@,
    {
        let tmp = tmp_path(path);
        let mut block: Vec<u8> = Vec::new();
        reset_block(&mut block);
        proof {
            lemma_empty_block();
        }
        let r = Self {
            path: path.to_owned(),
            tmp,
            file: Vec::new(),
            block,
            index_bytes: Vec::new(),
            index: Vec::new(),
            hashes: Vec::new(),
            entries: 0,
            first_key: None,
            last_key: None,
            smallest_seq: 0,
            largest_seq: 0,
        };
        assert(index::views(r.index@) =~= Seq::<IndexView>::empty());
        assert(r@.hashes =~= Seq::<u64>::empty());
        assert(r@.file =~= Seq::<u8>::empty());
        r
    }

    /// Where the file is written before it takes its place.
    pub fn tmp(&self) -> (r: &str)
        requires
            self.wf(),
        ensures
            r@ == path::extended(self.target(), "sst.tmp"@),
    {
        self.tmp.as_str()
    }

    /// Adds an entry. Its key may not come before that of the last entry.
    pub fn add(&mut self, key: &Key, value: &Value) -> (r: DbResult<()>)
        requires
            old(self).wf(),
        ensures
            final(self).wf(),
            final(self).target() == old(self).target(),
            final(self)@ == old(self)@.step((key@, value@)).0,
            r is Ok <==> old(self)@.step((key@, value@)).1 is None,
            r is Ok <==> {
                let text = match value@ {
                    ValueView::Put(s) => encode_utf8(s).len(),
                    ValueView::Delete => 0,
                };
                &&& old(self)@.last matches Some(l) ==> !key@.lt(l)
                &&& encode_utf8(key.0@).len() <= 65535
                &&& text <= 65535
                &&& old(self)@.block.len() + 12 + encode_utf8(key.0@).len() + text <= 65535
            },
            r is Ok ==> final(self)@.block.len() == (if old(self)@.block.len() + 12 + encode_utf8(
                key.0@,
            ).len() + value@.text_len() <= 4096 {
                old(self)@.block.len() + 12 + encode_utf8(key.0@).len() + value@.text_len()
            } else {
                6
            }),
            r is Ok ==> final(self)@.entries == old(self)@.entries + 1,
            r matches Err(e) ==> match old(self)@.step((key@, value@)).1 {
                Some(Refusal::Order(k, last)) => e.is_value(order_message(k, last)),
                Some(Refusal::Size) => e is InvalidInt,
                None => false,
            },
    {
        let new_key: bool = match &self.last_key {
            Some(last) => {
                if key.before(last.0.as_str(), last.1) {
                    return Err(order_error(key, last));
                }
                !text::same(last.0.as_str(), key.0.as_str())
            },
            None => true,
        };
        if new_key {
            self.hashes.push(BloomFilter::hash64(key.0.as_str()));
        }
        assert(self@ == old(self)@.hashed(key@));
        proof {
            encode::lemma_entry_len((key@, value@));
            lemma_empty_block();
        }
        match encode(&mut self.block, key, value) {
            Err(e) => {
                return Err(e);
            },
            Ok(_) => {},
        }
        if self.first_key.is_none() {
            self.first_key = Some(key.clone());
            self.smallest_seq = key.1;
            self.largest_seq = key.1;
        } else {
            if key.1 < self.smallest_seq {
                self.smallest_seq = key.1;
            }
            if key.1 > self.largest_seq {
                self.largest_seq = key.1;
            }
        }
        self.last_key = Some(key.clone());
        let file_len: usize = self.file.len();
        let block_len: usize = self.block.len();
        assert(self.entries * 12 + 12 <= file_len + block_len);
        self.entries = self.entries + 1;
        assert(self@ == old(self)@.hashed(key@).filled(
            encode::entry_bytes((key@, value@)),
        ).counted(key@));
        if self.block.len() > BLOCK_SIZE {
            return self.flush_block();
        }
        Ok(())
    }

    /// Closes the open block.
    fn flush_block(&mut self) -> (r: DbResult<()>)
        requires
            old(self).wf(),
            old(self).last_key is Some,
        ensures
            final(self).wf(),
            final(self).target() == old(self).target(),
            r is Ok <==> old(self)@.block.len() <= u16::MAX,
            r is Ok ==> final(self)@ == old(self)@.closed(),
            r matches Err(e) ==> e is InvalidInt && final(self)@ == old(self)@.stuck(),
    {
        if self.block.len() <= BLOCK_HEADER {
            return Ok(());
        }
        let last = match &self.last_key {
            Some(k) => k.clone(),
            None => {
                return Err(DbError::invalid_state("last block is none"));
            },
        };
        let ghost payload = self.block@.skip(6);
        let crc: u32 = checksum::checksum(
            vstd::slice::slice_subrange(self.block.as_slice(), BLOCK_HEADER, self.block.len()),
        );
        assert(self.block@.subrange(6, self.block@.len() as int) =~= payload);
        proof {
            encode::lemma_be(crc as nat, 4);
        }
        set_u32(&mut self.block, 0, crc);
        assert(self.block@.len() == old(self).block@.len());
        let len: u16 = match short_len(self.block.len()) {
            Ok(len) => len,
            Err(e) => {
                return Err(e);
            },
        };
        let payload_len: u16 = len - 6;
        proof {
            encode::lemma_be(payload_len as nat, 2);
        }
        set_u16(&mut self.block, 4, payload_len);
        assert(self.block@ =~= cursor::block_bytes(payload));
        let off: u64 = self.file.len() as u64;
        self.file.extend_from_slice(self.block.as_slice());
        assert(self.file@ =~= old(self).file@ + cursor::block_bytes(payload));
        let index_key = IndexedKey::new(last, off, len);
        let ghost before = index::views(self.index@);
        match index_key.write_to_buf(&mut self.index_bytes) {
            Ok(_) => {},
            Err(e) => {
                assert(false);
                return Err(e);
            },
        }
        self.index.push(index_key);
        assert(index::views(self.index@) =~= before.push(index_key@));
        assert(index::views(self.index@).drop_last() =~= before);
        self.block.clear();
        reset_block(&mut self.block);
        proof {
            lemma_empty_block();
        }
        Ok(())
    }

    /// Completes the table. Returns what there is to know of it and its file, or
    /// nothing when it has no entries.
    pub fn finish(self) -> (r: DbResult<Option<(SSTableMeta, Vec<u8>)>>)
        requires
            self.wf(),
        ensures
            finished(r, self@, self.target()),
    {
        let mut w = self;
        if w.entries == 0 {
            return Ok(None);
        }
        match w.flush_block() {
            Ok(_) => {},
            Err(e) => {
                return Err(e);
            },
        }
        assert(w@ == self@.closed());
        assert(w.hashes@ == self@.hashes);
        let keys: usize = w.hashes.len();
        let bits: usize = match keys.checked_mul(BITS_PER_KEY) {
            Some(bits) => bits,
            None => {
                return Err(DbError::InvalidInt("filter too long".to_owned()));
            },
        };
        if bits > usize::MAX - 7 {
            return Err(DbError::InvalidInt("filter too long".to_owned()));
        }
        let size: u64 = if bits < 64 {
            8
        } else {
            (bits as u64 + 7) / 8
        };
        if size >= u32::MAX as u64 {
            return Err(DbError::InvalidInt("filter too long".to_owned()));
        }
        if w.index_bytes.len() as u64 > u32::MAX as u64 {
            return Err(DbError::InvalidInt("index too long".to_owned()));
        }
        let ghost done = w@;
        let bloom = BloomFilter::build(w.hashes.as_slice(), BITS_PER_KEY);
        let bloom_off: u64 = w.file.len() as u64;
        w.file.extend_from_slice(bloom.as_bytes());
        let index_off: u64 = w.file.len() as u64;
        w.file.extend_from_slice(w.index_bytes.as_slice());
        proof {
            lemma_index_count(done.index);
        }
        let footer = Footer {
            entries: w.entries,
            bloom_off,
            bloom_len: bloom.disk_size() as u32,
            index_off,
            index_len: w.index_bytes.len() as u32,
            index_count: w.index.len() as u32,
            smallest_seq: w.smallest_seq,
            largest_seq: w.largest_seq,
            magic: MAGIC,
        };
        footer.write_to_buf(&mut w.file);
        let file_size: u64 = w.file.len() as u64;
        assert(w.file@ =~= done.table(bloom@));
        let (first_key, last_key) = match (w.first_key, w.last_key) {
            (Some(first_key), Some(last_key)) => (first_key, last_key),
            _ => {
                assert(false);
                return Ok(None);
            },
        };
        let meta = SSTableMeta {
            path: w.path,
            file_size,
            bloom,
            first_key,
            last_key,
            footer,
            index: w.index,
        };
        Ok(Some((meta, w.file)))
    }
}

/// An index has at least as many bytes as entries.
proof fn lemma_index_count(xs: Seq<IndexView>)
    ensures
        xs.len() <= index::index_bytes(xs).len(),
    decreases xs.len(),
{
    if xs.len() > 0 {
        lemma_index_count(xs.drop_last());
        index::lemma_index_len(xs.last());
    }
}

/// The message for an entry that comes too late names its key and the last one, each with
/// its sequence number.
pub proof fn law_order_message(k: KeyView, last: KeyView)
    ensures
        order_message(k, last) == "key: "@ + (seq!['('] + k.user + seq![',', ' ']
            + text::decimal_text(k.seq as nat) + seq![')']) + " < last: "@ + (seq!['('] + last.user
            + seq![',', ' '] + text::decimal_text(last.seq as nat) + seq![')']),
{
}

} // verus!
