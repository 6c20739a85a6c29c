//! Looking up keys in a table.

use vstd::prelude::*;
use vstd::slice::slice_subrange;

use crate::common::error::{unexpected_eof, DbError, DbResult, Fault};
use crate::common::key;
use crate::common::key::{Key, KeyView};
use crate::common::lookup::{Lookup, LookupView};
use crate::common::text;
use crate::common::versions;
use crate::common::versions::Entry;
use crate::sstable::bloom;
use crate::sstable::cursor;
use crate::sstable::cursor::{Cursor, ValueRef};
use crate::sstable::encode;
use crate::sstable::footer;
use crate::sstable::footer::{FOOTER_LEN, MAGIC};
use crate::sstable::index;
use crate::sstable::index::{IndexView, IndexedKey};
use crate::sstable::layout;
use crate::sstable::meta;
use crate::sstable::meta::{MetaView, SSTableMeta};
use crate::sstable::scan::table as scan_table;
use crate::sstable::scan::table::ScanView;
use crate::sstable::writer::BITS_PER_KEY;

verus! {

/// The place of a block and its last key.
pub struct BlockHandle {
    /// The last key of the block.
    pub last_key: Key,
    /// Where the block begins.
    pub offset: u64,
    /// How long the block is.
    pub len: u32,
}

/// A table that can be read.
pub struct SSTable {
    /// The table file.
    pub data: Vec<u8>,
    /// What is known of the table without reading its blocks.
    pub meta: SSTableMeta,
}

/// What a search among the entries of a block finds, from `at` on.
pub open spec fn search_from(block: Seq<u8>, at: int, user: Seq<char>, snap: u64) -> Result<
    LookupView,
    Fault,
>
    decreases block.len() - at,
{
    if at >= block.len() {
        Ok(LookupView::Absent)
    } else {
        match cursor::strict_entry_at(block, at) {
            None => Err(Fault::State("corrupt sstable block"@)),
            Some((e, end)) => if e.0.lt(KeyView { user, seq: snap }) {
                search_from(block, end, user, snap)
            } else if e.0.user == user {
                Ok(LookupView::of(e.1))
            } else {
                Ok(LookupView::Absent)
            },
        }
    }
}

/// What a search in a block finds.
pub open spec fn search_block(block: Seq<u8>, user: Seq<char>, snap: u64) -> Result<
    LookupView,
    Fault,
> {
    match cursor::block_fault(block) {
        Some(f) => Err(f),
        None => search_from(block, 6, user, snap),
    }
}

/// What a search in the block that the index names finds.
pub open spec fn search_indexed(data: Seq<u8>, x: IndexView, user: Seq<char>, snap: u64) -> Result<
    LookupView,
    Fault,
> {
    if x.len > 0 && x.off + x.len > data.len() {
        Err(Fault::Eof)
    } else if x.len == 0 {
        search_block(Seq::empty(), user, snap)
    } else {
        search_block(data.subrange(x.off as int, x.off + x.len), user, snap)
    }
}

/// Whether `i` parts the index into keys before `target` and others.
pub open spec fn parts_at(index: Seq<IndexView>, target: KeyView, i: int) -> bool {
    &&& 0 <= i <= index.len()
    &&& i > 0 ==> index[i - 1].key.lt(target)
    &&& i < index.len() ==> !index[i].key.lt(target)
}

/// Whether the keys and the filter of a table admit `user`.
pub open spec fn may_hold(m: MetaView, user: Seq<char>) -> bool {
    &&& !text::text_lt(user, m.first_key.user)
    &&& !text::text_lt(m.last_key.user, user)
    &&& bloom::admits(m.bloom, bloom::key_hash(user))
}

/// Where halving the index between `lo` and `hi` ends.
pub open spec fn bisect(index: Seq<IndexView>, target: KeyView, lo: int, hi: int) -> int
    decreases hi - lo,
{
    if lo >= hi {
        lo
    } else {
        let mid = lo + (hi - lo) / 2;
        if index[mid].key.lt(target) {
            bisect(index, target, mid + 1, hi)
        } else {
            bisect(index, target, lo, mid)
        }
    }
}

/// Which block a search has to read, if any.
pub open spec fn block_for(m: MetaView, user: Seq<char>, snap: u64) -> Option<int> {
    let i = bisect(m.index, KeyView { user, seq: snap }, 0, m.index.len() as int);
    if may_hold(m, user) && i < m.index.len() {
        Some(i)
    } else {
        None
    }
}

/// What a search in a table finds.
pub open spec fn table_get(m: MetaView, data: Seq<u8>, user: Seq<char>, snap: u64) -> Result<
    LookupView,
    Fault,
> {
    match block_for(m, user, snap) {
        Some(i) => search_indexed(data, m.index[i], user, snap),
        None => Ok(LookupView::Absent),
    }
}

/// Halving parts the index.
proof fn lemma_bisect(index: Seq<IndexView>, target: KeyView, lo: int, hi: int)
    requires
        0 <= lo <= hi <= index.len(),
        lo > 0 ==> index[lo - 1].key.lt(target),
        hi < index.len() ==> !index[hi].key.lt(target),
    ensures
        parts_at(index, target, bisect(index, target, lo, hi)),
    decreases hi - lo,
{
    if lo < hi {
        let mid = lo + (hi - lo) / 2;
        if index[mid].key.lt(target) {
            lemma_bisect(index, target, mid + 1, hi);
        } else {
            lemma_bisect(index, target, lo, mid);
        }
    }
}

/// Whether `r` reports the outcome `o` of a search.
pub open spec fn answers(r: DbResult<Lookup>, o: Result<LookupView, Fault>) -> bool {
    match r {
        Ok(l) => o == Ok::<LookupView, Fault>(l@),
        Err(e) => o matches Err(f) && e.reports(f),
    }
}

/// Searches a block.
pub fn find_in_block(block: &[u8], user: &str, snapshot: u64) -> (r: DbResult<Lookup>)
    ensures
        answers(r, search_block(block@, user@, snapshot)),
{
    let mut c = match Cursor::new(block) {
        Ok(c) => c,
        Err(e) => {
            return Err(e);
        },
    };
    loop
        invariant
            c.data() == block@,
            c.at() >= 6,
            cursor::block_fault(block@) is None,
            search_from(block@, 6, user@, snapshot) == search_from(block@, c.at(), user@, snapshot),
        decreases block@.len() - c.at(),
    {
        match c.next_entry() {
            Err(e) => {
                return Err(e);
            },
            Ok(None) => {
                return Ok(Lookup::Absent);
            },
            Ok(Some(entry)) => {
                if entry.before(user, snapshot) {
                    continue;
                }
                if !text::same(entry.key, user) {
                    return Ok(Lookup::Absent);
                }
                return match entry.value {
                    ValueRef::Put(s) => Ok(Lookup::Found(s.to_owned())),
                    ValueRef::Delete => Ok(Lookup::Deleted),
                };
            },
        }
    }
}

impl SSTableMeta {
    /// The place in the index of the one block that can hold what a reader at
    /// `snapshot` finds under `user`, if the table can hold it at all.
    pub fn block_of(&self, user: &str, snapshot: u64) -> (r: Option<usize>)
        requires
            self.wf(),
        ensures
            match r {
                Some(i) => block_for(self@, user@, snapshot) == Some(i as int) && i
                    < self.index@.len(),
                None => block_for(self@, user@, snapshot) is None,
            },
    {
        if text::precedes(user, self.first_key.0.as_str()) || text::precedes(
            self.last_key.0.as_str(),
            user,
        ) {
            return None;
        }
        if !self.bloom.may_contain(user) {
            return None;
        }
        let i: usize = self.partition_point(user, snapshot);
        if i == self.index.len() {
            return None;
        }
        Some(i)
    }

    /// The first index entry that is not before `(user, snapshot)`, by halving.
    fn partition_point(&self, user: &str, snapshot: u64) -> (i: usize)
        ensures
            i == bisect(
                self@.index,
                KeyView { user: user@, seq: snapshot },
                0,
                self@.index.len() as int,
            ),
            i <= self@.index.len(),
    {
        let index = &self.index;
        let mut lo: usize = 0;
        let mut hi: usize = index.len();
        while lo < hi
            invariant
                lo <= hi <= index@.len(),
                index@ == self.index@,
                bisect(
                    self@.index,
                    KeyView { user: user@, seq: snapshot },
                    0,
                    self@.index.len() as int,
                ) == bisect(
                    self@.index,
                    KeyView { user: user@, seq: snapshot },
                    lo as int,
                    hi as int,
                ),
            decreases hi - lo,
        {
            let mid: usize = lo + (hi - lo) / 2;
            assert(self@.index[mid as int] == index@[mid as int]@);
            if index[mid].key.before(user, snapshot) {
                lo = mid + 1;
            } else {
                hi = mid;
            }
        }
        lo
    }
}

impl SSTable {
    /// The table file.
    pub open spec fn bytes(&self) -> Seq<u8> {
        self.data@
    }

    /// The filter is small enough to count its bits.
    pub open spec fn wf(&self) -> bool {
        self.meta.wf()
    }

    /// Opens the table file `data`, which stands at `path`.
    pub fn open(path: &str, data: Vec<u8>) -> (r: DbResult<Self>)
        ensures
            r matches Ok(t) ==> t.wf() && t.bytes() == data@ && t.meta.path@ == path@
                && meta::parsed_meta(data@) == Ok::<MetaView, Fault>(t.meta@),
            r matches Err(e) ==> meta::parsed_meta(data@) matches Err(f) && e.reports(f),
    {
        match SSTableMeta::read(path, data.as_slice()) {
            Ok(meta) => Ok(Self { data, meta }),
            Err(e) => Err(e),
        }
    }

    /// The newest version of `user` with a sequence number of at most `snapshot`.
    pub fn get(&self, user: &str, snapshot: u64) -> (r: DbResult<Lookup>)
        requires
            self.wf(),
        ensures
            answers(r, table_get(self.meta@, self.bytes(), user@, snapshot)),
    {
        let i: usize = match self.meta.block_of(user, snapshot) {
            Some(i) => i,
            None => {
                return Ok(Lookup::Absent);
            },
        };
        match self.read_block(&self.meta.index[i]) {
            Ok(block) => find_in_block(block, user, snapshot),
            Err(e) => Err(e),
        }
    }

    /// The bytes of a block.
    fn read_block(&self, h: &IndexedKey) -> (r: DbResult<&[u8]>)
        ensures
            r matches Ok(b) ==> b@ == (if h@.len == 0 {
                Seq::empty()
            } else {
                self.bytes().subrange(h@.off as int, h@.off + h@.len)
            }) && (h@.len == 0 || h@.off + h@.len <= self.bytes().len()),
            r matches Err(e) ==> e is IO && h@.len > 0 && h@.off + h@.len > self.bytes().len(),
    {
        let data = self.data.as_slice();
        if h.block_len == 0 {
            let b = slice_subrange(data, 0, 0);
            assert(b@ =~= Seq::<u8>::empty());
            return Ok(b);
        }
        let size: u64 = data.len() as u64;
        if h.block_off > size || size - h.block_off < h.block_len as u64 {
            return Err(DbError::IO(unexpected_eof()));
        }
        let from: usize = h.block_off as usize;
        Ok(slice_subrange(data, from, from + h.block_len as usize))
    }
}

/// What a block of entries answers, from its entry `j` on.
pub open spec fn block_answer(b: Seq<Entry>, j: int, user: Seq<char>, snap: u64) -> LookupView
    decreases b.len() - j,
{
    if j >= b.len() {
        LookupView::Absent
    } else if b[j].0.lt(KeyView { user, seq: snap }) {
        block_answer(b, j + 1, user, snap)
    } else if b[j].0.user == user {
        LookupView::of(b[j].1.stored())
    } else {
        LookupView::Absent
    }
}

/// The entry `j` of a block is read back, with the place where the next one begins.
proof fn lemma_block_entry(b: Seq<Entry>, j: int)
    requires
        layout::block_ok(b),
        0 <= j < b.len(),
    ensures
        ({
            let blk = cursor::block_bytes(layout::payload(b));
            let at = 6 + layout::payload(b.take(j)).len() as int;
            &&& at < blk.len()
            &&& cursor::strict_entry_at(blk, at) == Some(
                (
                    layout::stored_entry(b[j]),
                    6 + layout::payload(b.take(j + 1)).len() as int,
                ),
            )
        }),
{
    let pay = layout::payload(b);
    let blk = cursor::block_bytes(pay);
    let e = b[j];
    let k = layout::payload(b.take(j)).len() as int;
    let n = encode::entry_bytes(e).len() as int;
    cursor::law_block_checks(pay);
    layout::lemma_entry_in_payload(b, j);
    encode::lemma_entry_len(e);
    assert(blk.subrange(6 + k, 6 + k + n) =~= blk.skip(6).subrange(k, k + n));
    cursor::law_strict_round_trip(blk, 6 + k, e);
}

/// A search among the bytes of a block finds what its entries answer.
#[verifier::spinoff_prover]
proof fn lemma_search_block(b: Seq<Entry>, j: int, user: Seq<char>, snap: u64)
    requires
        layout::block_ok(b),
        0 <= j <= b.len(),
    ensures
        search_from(
            cursor::block_bytes(layout::payload(b)),
            6 + layout::payload(b.take(j)).len() as int,
            user,
            snap,
        ) == Ok::<LookupView, Fault>(block_answer(b, j, user, snap)),
    decreases b.len() - j,
{
    if j == b.len() {
        cursor::law_block_checks(layout::payload(b));
        assert(b.take(j) =~= b);
    } else {
        lemma_block_entry(b, j);
        lemma_search_block(b, j + 1, user, snap);
    }
}

/// Where the entries of a block stand among all.
proof fn lemma_block_in_flat(bs: Seq<Seq<Entry>>, i: int)
    requires
        0 <= i <= bs.len(),
    ensures
        bs.take(i).flatten().len() <= bs.flatten().len(),
        i == bs.len() ==> bs.take(i).flatten().len() == bs.flatten().len(),
        i < bs.len() ==> bs.take(i).flatten().len() + bs[i].len() <= bs.flatten().len(),
        i < bs.len() ==> bs.flatten().subrange(
            bs.take(i).flatten().len() as int,
            (bs.take(i).flatten().len() + bs[i].len()) as int,
        ) == bs[i],
{
    let (pre, post) = (bs.take(i), bs.skip(i));
    assert(bs =~= pre + post);
    vstd::seq_lib::lemma_flatten_concat(pre, post);
    if i == bs.len() {
        assert(pre =~= bs);
    } else {
        let n = pre.flatten().len() as int;
        assert(post.first() == bs[i]);
        assert(post.flatten() == bs[i] + post.drop_first().flatten());
        assert(bs.flatten().subrange(n, n + bs[i].len()) =~= bs[i]);
    }
}

/// What comes before a block comes before a key that is behind the block before.
proof fn lemma_before_block(bs: Seq<Seq<Entry>>, i: int, target: KeyView, x: int)
    requires
        layout::blocks_ok(bs),
        versions::ascending(bs.flatten()),
        0 < i <= bs.len(),
        bs[i - 1].last().0.lt(target),
        0 <= x < bs.take(i).flatten().len(),
    ensures
        x < bs.flatten().len(),
        bs.flatten()[x].0.lt(target),
{
    let es = bs.flatten();
    let last = bs[i - 1];
    let n = bs.take(i).flatten().len() as int;
    assert(layout::block_ok(last));
    lemma_block_in_flat(bs, i);
    lemma_block_in_flat(bs, i - 1);
    assert(bs.take(i) =~= bs.take(i - 1).push(last));
    bs.take(i - 1).lemma_flatten_push(last);
    let m = bs.take(i - 1).flatten().len() as int;
    assert(es.subrange(m, m + last.len())[last.len() - 1] == es[n - 1]);
    if x < n - 1 {
        assert(es[x].0.le(es[n - 1].0));
        if es[x].0 != es[n - 1].0 {
            key::lemma_key_transitive(es[x].0, es[n - 1].0, target);
        }
    }
}

/// The block in which a key stands answers for all entries.
proof fn lemma_block_lookup(bs: Seq<Seq<Entry>>, i: int, user: Seq<char>, snap: u64)
    requires
        layout::blocks_ok(bs),
        versions::ascending(bs.flatten()),
        parts_at(layout::index_of(bs), KeyView { user, seq: snap }, i),
        bs.len() > 0,
    ensures
        versions::lookup(versions::map_of(layout::stored(bs.flatten())), user, snap) == (if i
            < bs.len() {
            block_answer(bs[i], 0, user, snap)
        } else {
            LookupView::Absent
        }),
{
    let target = KeyView { user, seq: snap };
    let es = bs.flatten();
    let st = layout::stored(es);
    let n = bs.take(i).flatten().len() as int;
    layout::lemma_index_of(bs, 0);
    lemma_block_in_flat(bs, i);
    assert forall|x: int| 0 <= x < n implies (#[trigger] st[x]).0.lt(target) by {
        if i == 0 {
            assert(bs.take(i).flatten().len() == 0);
        } else {
            layout::lemma_index_of(bs, i - 1);
            lemma_before_block(bs, i, target, x);
        }
    }
    assert(versions::ascending(st)) by {
        assert forall|x: int, y: int| 0 <= x < y < st.len() implies (#[trigger] st[x]).0.le(
            (#[trigger] st[y]).0,
        ) by {
            assert(es[x].0.le(es[y].0));
        }
    }
    if i == bs.len() {
        assert(versions::stands_at(st, target, n));
        versions::lemma_lookup_at(st, user, snap, n);
    } else {
        layout::lemma_index_of(bs, i);
        assert(layout::block_ok(bs[i]));
        lemma_block_position(es, bs[i], n, 0, user, snap);
    }
}

/// Within the block in which a key stands the search ends at its place.
proof fn lemma_block_position(
    es: Seq<Entry>,
    b: Seq<Entry>,
    n: int,
    j: int,
    user: Seq<char>,
    snap: u64,
)
    requires
        versions::ascending(layout::stored(es)),
        0 <= n,
        n + b.len() <= es.len(),
        b.len() > 0,
        es.subrange(n, n + b.len()) == b,
        !b.last().0.lt(KeyView { user, seq: snap }),
        0 <= j < b.len(),
        forall|x: int|
            0 <= x < n + j ==> (#[trigger] layout::stored(es)[x]).0.lt(
                KeyView { user, seq: snap },
            ),
    ensures
        versions::lookup(versions::map_of(layout::stored(es)), user, snap) == block_answer(
            b,
            j,
            user,
            snap,
        ),
    decreases b.len() - j,
{
    let target = KeyView { user, seq: snap };
    let st = layout::stored(es);
    assert(es[n + j] == es.subrange(n, n + b.len())[j]);
    assert(st[n + j] == layout::stored_entry(b[j]));
    if b[j].0.lt(target) {
        lemma_block_position(es, b, n, j + 1, user, snap);
    } else {
        assert(versions::stands_at(st, target, n + j));
        versions::lemma_lookup_at(st, user, snap, n + j);
    }
}

/// The file and the metadata of a table of entries.
pub open spec fn is_table(es: Seq<Entry>, file: Seq<u8>, m: MetaView) -> bool {
    let w = layout::written(es).closed();
    &&& es.len() > 0
    &&& es.len() <= u64::MAX
    &&& layout::accepted(es)
    &&& w.describable()
    &&& bloom::is_filter(m.bloom, w.hashes, BITS_PER_KEY as nat)
    &&& file == w.table(m.bloom)
    &&& m == w.meta(m.bloom)
    &&& file.len() <= u64::MAX
}

/// How the file of a table divides.
proof fn lemma_table_parts(es: Seq<Entry>, file: Seq<u8>, m: MetaView)
    requires
        is_table(es, file, m),
    ensures
        ({
            let bs = layout::blocks(es);
            let n = layout::data(bs).len() as int;
            let x = index::index_bytes(m.index);
            &&& m.index == layout::index_of(bs)
            &&& file.len() == n + m.bloom.len() + x.len() + FOOTER_LEN
            &&& file.take(n) == layout::data(bs)
            &&& file.subrange(n, n + m.bloom.len()) == m.bloom
            &&& file.subrange(n + m.bloom.len(), n + m.bloom.len() + x.len()) == x
            &&& file.subrange(file.len() - FOOTER_LEN, file.len() as int) == m.footer.bytes()
            &&& m.footer.magic == MAGIC
            &&& m.footer.bloom_off == n
            &&& m.footer.bloom_len == m.bloom.len()
            &&& m.footer.index_off == n + m.bloom.len()
            &&& m.footer.index_len == x.len()
            &&& m.first_key == es[0].0
            &&& m.last_key == es.last().0
            &&& m.file_size == file.len()
        }),
{
    let w = layout::written(es).closed();
    let bs = layout::blocks(es);
    layout::lemma_written(es);
    layout::lemma_blocks(es);
    footer::lemma_footer_len(m.footer);
    let n = layout::data(bs).len() as int;
    let x = index::index_bytes(m.index);
    assert(w.file == layout::data(bs));
    assert(file.take(n) =~= layout::data(bs));
    assert(file.subrange(n, n + m.bloom.len()) =~= m.bloom);
    assert(file.subrange(n + m.bloom.len(), n + m.bloom.len() + x.len()) =~= x);
    assert(file.subrange(file.len() - FOOTER_LEN, file.len() as int) =~= m.footer.bytes());
}

/// The first key of a table stands behind the header of its first block.
proof fn lemma_first_key(es: Seq<Entry>, file: Seq<u8>, m: MetaView)
    requires
        is_table(es, file, m),
    ensures
        encode::key_at(file, 6) matches Some((k, _)) && k == es[0].0,
{
    reveal(encode::entry_bytes);
    lemma_table_parts(es, file, m);
    layout::lemma_blocks(es);
    let bs = layout::blocks(es);
    let n = layout::data(bs).len() as int;
    let e = es[0];
    assert(layout::block_ok(bs[0]));
    assert(bs[0][0] == e) by {
        assert(bs.flatten() == bs.first() + bs.drop_first().flatten());
    }
    layout::lemma_entry_in_data(bs, 0, 0);
    assert(layout::data(bs.take(0)).len() == 0);
    assert(layout::payload(bs[0].take(0)).len() == 0);
    let len = encode::entry_bytes(e).len() as int;
    encode::lemma_entry_len(e);
    let klen = encode::key_bytes(e.0).len() as int;
    assert(file.subrange(6, 6 + klen) =~= file.take(n).subrange(6, 6 + len).subrange(0, klen));
    assert(encode::entry_bytes(e).subrange(0, klen) =~= encode::key_bytes(e.0));
    encode::law_key_round_trip(file, 6, e.0);
}

/// The index of a table ends with its last key, and its keys can be written.
proof fn lemma_index_keys(es: Seq<Entry>)
    requires
        layout::accepted(es),
        es.len() > 0,
        es.len() <= u64::MAX,
    ensures
        ({
            let xs = layout::index_of(layout::blocks(es));
            &&& xs.len() > 0
            &&& xs.last().key == es.last().0
            &&& forall|i: int|
                0 <= i < xs.len() ==> encode::fits((#[trigger] xs[i]).key.text_len())
        }),
{
    layout::lemma_blocks(es);
    let bs = layout::blocks(es);
    let xs = layout::index_of(bs);
    layout::lemma_index_of(bs, 0);
    assert forall|i: int| 0 <= i < xs.len() implies encode::fits(
        (#[trigger] xs[i]).key.text_len(),
    ) by {
        layout::lemma_index_of(bs, i);
        assert(layout::block_ok(bs[i]));
        assert(encode::entry_fits(bs[i].last()));
    }
    layout::lemma_index_of(bs, bs.len() - 1);
    assert(layout::block_ok(bs.last()));
    assert(bs.drop_last().push(bs.last()) =~= bs);
    bs.drop_last().lemma_flatten_push(bs.last());
    assert(es.last() == bs.last().last());
}

/// The metadata of a table that was written is read back.
pub proof fn law_meta_round_trip(es: Seq<Entry>, file: Seq<u8>, m: MetaView)
    requires
        is_table(es, file, m),
    ensures
        meta::parsed_meta(file) == Ok::<MetaView, Fault>(m),
{
    lemma_table_parts(es, file, m);
    lemma_first_key(es, file, m);
    lemma_index_keys(es);
    let n = layout::data(layout::blocks(es)).len() as int;
    footer::law_footer_round_trip(file, file.len() - FOOTER_LEN, m.footer);
    meta::law_index_list_round_trip(file, n + m.bloom.len(), m.index);
    assert(m.bloom.len() > 0);
}

/// The entries of a table that was written are read back in order.
pub proof fn law_scan_round_trip(es: Seq<Entry>, file: Seq<u8>, m: MetaView)
    requires
        is_table(es, file, m),
    ensures
        ScanView::opened(file) matches Ok(v) && v.all() == Ok::<Seq<Entry>, Fault>(
            layout::stored(es),
        ),
{
    lemma_table_parts(es, file, m);
    layout::lemma_blocks(es);
    footer::law_footer_round_trip(file, file.len() - FOOTER_LEN, m.footer);
    scan_table::law_scan_blocks(file, layout::blocks(es));
}

/// A search in a table that was written finds what its entries answer.
pub proof fn law_get_round_trip(
    es: Seq<Entry>,
    file: Seq<u8>,
    m: MetaView,
    user: Seq<char>,
    snap: u64,
)
    requires
        is_table(es, file, m),
    ensures
        table_get(m, file, user, snap) == Ok::<LookupView, Fault>(
            versions::lookup(versions::map_of(layout::stored(es)), user, snap),
        ),
{
    lemma_table_parts(es, file, m);
    layout::lemma_written(es);
    layout::lemma_blocks(es);
    let bs = layout::blocks(es);
    if !may_hold(m, user) {
        lemma_not_held(es, m, user, snap);
    } else {
        let target = KeyView { user, seq: snap };
        let i = bisect(m.index, target, 0, m.index.len() as int);
        lemma_bisect(m.index, target, 0, m.index.len() as int);
        lemma_block_lookup(bs, i, user, snap);
        layout::lemma_index_of(bs, 0);
        if i < bs.len() {
            let b = bs[i];
            layout::lemma_index_of(bs, i);
            layout::lemma_block_at(bs, i);
            assert(layout::block_ok(b));
            let pay = layout::payload(b);
            let blk = cursor::block_bytes(pay);
            cursor::law_block_checks(pay);
            let base = layout::data(bs.take(i)).len() as int;
            let n = layout::data(bs).len() as int;
            assert(file.subrange(base, base + blk.len()) =~= file.take(n).subrange(
                base,
                base + blk.len(),
            ));
            assert(layout::payload(b.take(0)).len() == 0);
            lemma_search_block(b, 0, user, snap);
        }
    }
}

/// What the keys or the filter of a table exclude is not in it.
proof fn lemma_not_held(es: Seq<Entry>, m: MetaView, user: Seq<char>, snap: u64)
    requires
        es.len() > 0,
        versions::ascending(es),
        m.first_key == es[0].0,
        m.last_key == es.last().0,
        bloom::is_filter(m.bloom, layout::written(es).closed().hashes, BITS_PER_KEY as nat),
        forall|i: int|
            0 <= i < es.len() ==> layout::written(es).hashes.contains(
                bloom::key_hash((#[trigger] es[i]).0.user),
            ),
        !may_hold(m, user),
    ensures
        versions::lookup(versions::map_of(layout::stored(es)), user, snap) is Absent,
{
    broadcast use {text::lemma_text_irreflexive, text::lemma_text_transitive};

    let st = layout::stored(es);
    let vm = versions::map_of(st);
    versions::lemma_map_of_keys(st);
    assert forall|s: u64| s <= snap implies !#[trigger] vm.contains_key(
        KeyView { user, seq: s },
    ) by {
        let k = KeyView { user, seq: s };
        if versions::has_key(st, k) {
            let x = choose|x: int| 0 <= x < st.len() && (#[trigger] st[x]).0 == k;
            assert(es[x].0 == k);
            let h = bloom::key_hash(user);
            assert(layout::written(es).hashes.contains(h));
            bloom::law_no_false_negatives(
                m.bloom,
                layout::written(es).closed().hashes,
                BITS_PER_KEY as nat,
                h,
            );
            if x > 0 {
                assert(es[0].0.le(es[x].0));
            }
            if x < es.len() - 1 {
                assert(es[x].0.le(es[es.len() - 1].0));
            }
            assert(false);
        }
    }
    versions::lemma_lookup_absent(vm, user, snap);
}

/// The last key of a block among the keys of all blocks.
proof fn lemma_block_key(bs: Seq<Seq<Entry>>, i: int) -> (p: int)
    requires
        layout::blocks_ok(bs),
        0 <= i < bs.len(),
    ensures
        p == bs.take(i + 1).flatten().len() - 1,
        0 <= p < bs.flatten().len(),
        bs.flatten()[p] == bs[i].last(),
{
    assert(layout::block_ok(bs[i]));
    layout::lemma_first_blocks(bs, i);
    layout::lemma_first_blocks(bs, i + 1);
    let (a, b) = (bs.take(i).flatten(), bs.take(i + 1).flatten());
    let p = b.len() - 1;
    assert(b[p] == bs[i][p - a.len()]);
    assert(bs.flatten().take(b.len() as int)[p] == bs.flatten()[p]);
    p
}

/// What the index of blocks says of each of them.
proof fn lemma_index_entry(bs: Seq<Seq<Entry>>, i: int)
    requires
        layout::blocks_ok(bs),
        layout::data(bs).len() <= u64::MAX,
        0 <= i < bs.len(),
    ensures
        layout::index_of(bs).len() == bs.len(),
        layout::index_of(bs)[i].key == bs[i].last().0,
        layout::index_of(bs)[i].off == layout::data(bs.take(i)).len(),
        layout::index_of(bs)[i].len == layout::data(bs.take(i + 1)).len() - layout::data(
            bs.take(i),
        ).len(),
{
    layout::lemma_index_of(bs, i);
    layout::lemma_block_at(bs, i);
    assert(layout::block_ok(bs[i]));
    cursor::law_block_checks(layout::payload(bs[i]));
}

/// The blocks of an index lie one behind the other.
proof fn lemma_index_tiles(bs: Seq<Seq<Entry>>)
    requires
        layout::blocks_ok(bs),
        layout::data(bs).len() <= u64::MAX,
        bs.len() > 0,
    ensures
        ({
            let x = layout::index_of(bs);
            &&& x.len() == bs.len()
            &&& x[0].off == 0
            &&& forall|i: int|
                0 <= i < x.len() - 1 ==> (#[trigger] x[i]).off + x[i].len == x[i + 1].off
            &&& x.last().off + x.last().len == layout::data(bs).len()
            &&& x.last().key == bs.last().last().0
        }),
{
    let x = layout::index_of(bs);
    let last = bs.len() - 1;
    lemma_index_entry(bs, 0);
    lemma_index_entry(bs, last);
    assert(bs.take(0) =~= Seq::<Seq<Entry>>::empty());
    assert(layout::data(bs.take(0)).len() == 0);
    assert(bs.take(last + 1) =~= bs);
    assert forall|i: int| 0 <= i < x.len() - 1 implies (#[trigger] x[i]).off + x[i].len == x[i
        + 1].off by {
        lemma_index_entry(bs, i);
        lemma_index_entry(bs, i + 1);
    }
}

/// The keys of an index do not descend.
proof fn lemma_index_ascends(bs: Seq<Seq<Entry>>)
    requires
        layout::blocks_ok(bs),
        layout::data(bs).len() <= u64::MAX,
        versions::ascending(bs.flatten()),
    ensures
        forall|i: int, j: int|
            0 <= i < j < layout::index_of(bs).len() && layout::index_of(bs).len() == bs.len() ==> (
            #[trigger] layout::index_of(bs)[i]).key.le((#[trigger] layout::index_of(bs)[j]).key),
{
    let x = layout::index_of(bs);
    let es = bs.flatten();
    assert forall|i: int, j: int| 0 <= i < j < x.len() && x.len() == bs.len() implies (
    #[trigger] x[i]).key.le((#[trigger] x[j]).key) by {
        lemma_index_entry(bs, i);
        lemma_index_entry(bs, j);
        let p = lemma_block_key(bs, i);
        let q = lemma_block_key(bs, j);
        layout::lemma_first_blocks(bs.take(j + 1), i + 1);
        assert(bs.take(j + 1).take(i + 1) =~= bs.take(i + 1));
        if p < q {
            assert(es[p].0.le(es[q].0));
        }
    }
}

/// How a table is laid out: the index lists the blocks in key order, and these lie
/// before the filter without a gap; the metadata counts the entries and names the
/// first key, the last key, and the lowest and the highest sequence number.
pub proof fn law_table_layout(es: Seq<Entry>, file: Seq<u8>, m: MetaView)
    requires
        is_table(es, file, m),
    ensures
        m.footer.entries == es.len(),
        m.first_key == es[0].0,
        m.last_key == es.last().0,
        m.index.len() > 0,
        m.index.last().key == m.last_key,
        m.index[0].off == 0,
        forall|i: int, j: int|
            0 <= i && j == i + 1 && j < m.index.len() ==> (#[trigger] m.index[i]).off
                + m.index[i].len == (#[trigger] m.index[j]).off,
        m.index.last().off + m.index.last().len == m.footer.bloom_off,
        forall|i: int, j: int|
            0 <= i < j < m.index.len() ==> (#[trigger] m.index[i]).key.le(
                (#[trigger] m.index[j]).key,
            ),
        forall|i: int|
            0 <= i < es.len() ==> m.footer.smallest_seq <= (#[trigger] es[i]).0.seq
                <= m.footer.largest_seq,
        exists|i: int| 0 <= i < es.len() && (#[trigger] es[i]).0.seq == m.footer.smallest_seq,
        exists|i: int| 0 <= i < es.len() && (#[trigger] es[i]).0.seq == m.footer.largest_seq,
{
    let bs = layout::blocks(es);
    lemma_table_parts(es, file, m);
    layout::lemma_written(es);
    layout::lemma_blocks(es);
    layout::lemma_smallest(es);
    layout::lemma_largest(es);
    lemma_index_tiles(bs);
    lemma_index_ascends(bs);
    let last = bs.len() - 1;
    let p = lemma_block_key(bs, last);
    assert(bs.take(last + 1) =~= bs);
    assert(es[p] == es.last());
}

/// Where a block stands in the file of a table, and how it was written.
proof fn lemma_block_in_file(es: Seq<Entry>, file: Seq<u8>, m: MetaView, i: int)
    requires
        is_table(es, file, m),
        0 <= i < m.index.len(),
    ensures
        m.index.len() == layout::blocks(es).len(),
        layout::block_ok(layout::blocks(es)[i]),
        m.index[i].off + m.index[i].len <= m.footer.bloom_off <= file.len(),
        m.index[i].len == 6 + layout::payload(layout::blocks(es)[i]).len(),
        file.subrange(m.index[i].off as int, m.index[i].off + m.index[i].len)
            == cursor::block_bytes(layout::payload(layout::blocks(es)[i])),
{
    let bs = layout::blocks(es);
    lemma_table_parts(es, file, m);
    layout::lemma_blocks(es);
    layout::lemma_index_of(bs, 0);
    layout::lemma_index_of(bs, i);
    layout::lemma_block_at(bs, i);
    assert(layout::block_ok(bs[i]));
    cursor::law_block_checks(layout::payload(bs[i]));
    let base = layout::data(bs.take(i)).len() as int;
    let n = layout::data(bs).len() as int;
    let len = cursor::block_bytes(layout::payload(bs[i])).len() as int;
    assert(file.subrange(base, base + len) =~= file.take(n).subrange(base, base + len));
}

/// Blocks do not overlap.
proof fn lemma_blocks_apart(es: Seq<Entry>, file: Seq<u8>, m: MetaView, i: int, j: int)
    requires
        is_table(es, file, m),
        0 <= i < j < m.index.len(),
    ensures
        m.index[i].off + m.index[i].len <= m.index[j].off,
    decreases j - i,
{
    law_table_layout(es, file, m);
    assert(m.index[j - 1].off + m.index[j - 1].len == m.index[j].off);
    if i < j - 1 {
        lemma_blocks_apart(es, file, m, i, j - 1);
    }
}

/// A table in whose file one byte of a block is damaged, in its entries or in its
/// checksum, reports a search that goes to this block, and answers every other search
/// as before: it never answers from what is damaged.
pub proof fn law_damage_is_reported(
    es: Seq<Entry>,
    file: Seq<u8>,
    m: MetaView,
    j: int,
    x: int,
    b: u8,
    user: Seq<char>,
    snap: u64,
)
    requires
        is_table(es, file, m),
        0 <= j < m.index.len(),
        m.index[j].off <= x < m.index[j].off + m.index[j].len,
        !(m.index[j].off + 4 <= x < m.index[j].off + 6),
        file[x] != b,
    ensures
        block_for(m, user, snap) == Some(j) ==> table_get(m, file.update(x, b), user, snap) == Err::<
            LookupView,
            Fault,
        >(Fault::State("block corrupted"@)),
        block_for(m, user, snap) != Some(j) ==> table_get(m, file.update(x, b), user, snap)
            == table_get(m, file, user, snap),
{
    let bad = file.update(x, b);
    match block_for(m, user, snap) {
        Some(i) => {
            let (from, to) = (m.index[i].off as int, m.index[i].off + m.index[i].len);
            lemma_bisect(m.index, KeyView { user, seq: snap }, 0, m.index.len() as int);
            lemma_block_in_file(es, file, m, i);
            lemma_block_in_file(es, file, m, j);
            let pay = layout::payload(layout::blocks(es)[i]);
            if i == j {
                assert(bad.subrange(from, to) =~= cursor::block_bytes(pay).update(x - from, b));
                assert(cursor::block_bytes(pay)[x - from] == file.subrange(from, to)[x - from]);
                cursor::law_damaged_block_is_refused(pay, x - from, b);
            } else {
                if i < j {
                    lemma_blocks_apart(es, file, m, i, j);
                } else {
                    lemma_blocks_apart(es, file, m, j, i);
                }
                assert(bad.subrange(from, to) =~= file.subrange(from, to));
            }
        },
        None => {},
    }
}

/// A search that goes to a block which the file does not reach, or whose header or
/// entries are bad, fails: it is never answered as if there were nothing.
pub proof fn law_bad_block_is_reported(m: MetaView, data: Seq<u8>, user: Seq<char>, snap: u64)
    ensures
        block_for(m, user, snap) matches Some(i) ==> {
            let x = m.index[i];
            &&& x.len > 0 && x.off + x.len > data.len() ==> table_get(m, data, user, snap) == Err::<
                LookupView,
                Fault,
            >(Fault::Eof)
            &&& x.len > 0 && x.off + x.len <= data.len() ==> {
                let b = data.subrange(x.off as int, x.off + x.len);
                &&& cursor::block_fault(b) matches Some(f) ==> table_get(m, data, user, snap)
                    == Err::<LookupView, Fault>(f)
                &&& cursor::block_fault(b) is None && b.len() > 6 && cursor::strict_entry_at(
                    b,
                    6,
                ) is None ==> table_get(m, data, user, snap) is Err
            }
        },
        block_for(m, user, snap) is None ==> table_get(m, data, user, snap) == Ok::<
            LookupView,
            Fault,
        >(LookupView::Absent),
{
}

} // verus!
