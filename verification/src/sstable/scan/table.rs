//! Reading the entries of one table in order.

use vstd::prelude::*;
use vstd::slice::slice_subrange;
use vstd::utf8::*;

use crate::common::error::{unexpected_eof, DbError, DbResult, Fault};
use crate::common::key::Key;
use crate::common::text;
use crate::common::value::{Value, ValueView};
use crate::common::versions::Entry;
use crate::sstable::checksum;
use crate::sstable::cursor;
use crate::sstable::encode;
use crate::sstable::encode::{get_u16, get_u32, read_key, read_value};
use crate::sstable::footer::{Footer, FOOTER_LEN};
use crate::sstable::layout;

verus! {

/// A place among the entries of a table file.
pub struct TableScan {
    data: Vec<u8>,
    pos: usize,
    block_remaining: u16,
    remaining: u64,
}

/// The mathematical content of a [`TableScan`].
pub struct ScanView {
    /// The table file.
    pub data: Seq<u8>,
    /// Where the scan stands.
    pub pos: int,
    /// Bytes of the current block that are still to come.
    pub block: nat,
    /// Bytes of all blocks that are still to come.
    pub remaining: nat,
}

/// Bytes that an entry takes in a file, as counted from its texts.
pub open spec fn entry_size(e: Entry) -> nat {
    12 + e.0.text_len() + e.1.text_len()
}

impl ScanView {
    /// What is wrong with the block header at which the scan stands, if anything.
    pub open spec fn header_fault(self) -> Option<Fault> {
        let len = encode::number_at(self.data, self.pos + 4, 2) as int;
        if self.pos + 6 > self.data.len() {
            Some(Fault::Eof)
        } else if self.remaining < 6 {
            Some(Fault::State("truncated block header"@))
        } else if self.pos + 6 + len > self.data.len() {
            Some(Fault::Eof)
        } else if checksum::crc32(self.data.subrange(self.pos + 6, self.pos + 6 + len))
            != encode::number_at(self.data, self.pos, 4) {
            Some(Fault::State("block corrupted"@))
        } else {
            None
        }
    }

    /// Where the scan stands once it has met what is wrong with a block header: it
    /// has read what it looked at.
    pub open spec fn header_missed(self) -> ScanView {
        let len = encode::number_at(self.data, self.pos + 4, 2) as int;
        let end = self.data.len() as int;
        if self.pos + 6 > end {
            ScanView { pos: end, ..self }
        } else if self.remaining < 6 {
            ScanView { pos: self.pos + 6, ..self }
        } else if self.pos + 6 + len > end {
            ScanView { pos: end, remaining: (self.remaining - 6) as nat, ..self }
        } else {
            ScanView { pos: self.pos + 6 + len, remaining: (self.remaining - 6) as nat, ..self }
        }
    }

    /// The scan behind the block header at which it stands.
    pub open spec fn entered(self) -> ScanView {
        ScanView {
            pos: self.pos + 6,
            block: encode::number_at(self.data, self.pos + 4, 2),
            remaining: (self.remaining - 6) as nat,
            ..self
        }
    }

    /// What reading an entry within a block gives, and the scan behind it. A scan
    /// that fails has read the entry all the same, or all that is left of the data.
    pub open spec fn entry(self) -> (Result<Option<Entry>, Fault>, ScanView) {
        match encode::entry_at(self.data, self.pos) {
            None => (Err(Fault::Eof), ScanView { pos: self.data.len() as int, ..self }),
            Some((e, end)) => if entry_size(e) > self.block {
                (
                    Err(Fault::State("entry crosses the block boundary"@)),
                    ScanView { pos: end, ..self },
                )
            } else if entry_size(e) > self.remaining {
                (
                    Err(Fault::State("entry runs past the last block"@)),
                    ScanView { pos: end, block: (self.block - entry_size(e)) as nat, ..self },
                )
            } else {
                (
                    Ok(Some(e)),
                    ScanView {
                        pos: end,
                        block: (self.block - entry_size(e)) as nat,
                        remaining: (self.remaining - entry_size(e)) as nat,
                        ..self
                    },
                )
            },
        }
    }

    /// What the next step of the scan gives, and the scan behind it.
    pub open spec fn next(self) -> (Result<Option<Entry>, Fault>, ScanView) {
        if self.remaining == 0 {
            (Ok(None), self)
        } else if self.block > 0 {
            self.entry()
        } else if self.header_fault() is Some {
            (Err(self.header_fault()->0), self.header_missed())
        } else if self.entered().block > 0 {
            self.entered().entry()
        } else if self.entered().remaining == 0 {
            (Ok(None), self.entered())
        } else {
            (Err(Fault::State("empty block before end of the table"@)), self.entered())
        }
    }

    /// All entries that the scan gives, unless it fails.
    #[verifier::opaque]
    pub open spec fn all(self) -> Result<Seq<Entry>, Fault>
        decreases self.remaining,
    {
        match self.next().0 {
            Err(f) => Err(f),
            Ok(None) => Ok(Seq::empty()),
            Ok(Some(e)) => match self.next().1.all() {
                Err(f) => Err(f),
                Ok(rest) => Ok(seq![e] + rest),
            },
        }
    }

    /// The scan at the start of the table file `data`.
    pub open spec fn opened(data: Seq<u8>) -> Result<ScanView, Fault> {
        if data.len() < FOOTER_LEN {
            Err(Fault::State("sstable is empty"@))
        } else {
            match Footer::parsed(data, data.len() - FOOTER_LEN) {
                Err(f) => Err(f),
                Ok(footer) => Ok(
                    ScanView { data, pos: 0, block: 0, remaining: footer.bloom_off as nat },
                ),
            }
        }
    }
}

impl View for TableScan {
    type V = ScanView;

    closed spec fn view(&self) -> ScanView {
        ScanView {
            data: self.data@,
            pos: self.pos as int,
            block: self.block_remaining as nat,
            remaining: self.remaining as nat,
        }
    }
}

impl TableScan {
    /// The scan stands within its file.
    pub closed spec fn wf(&self) -> bool {
        self.pos <= self.data@.len()
    }

    /// Starts a scan of the table file `data`.
    pub fn open(data: Vec<u8>) -> (r: DbResult<Self>)
        ensures
            r matches Ok(s) ==> s.wf() && ScanView::opened(data@) == Ok::<ScanView, Fault>(s@),
            r matches Err(e) ==> ScanView::opened(data@) matches Err(f) && e.reports(f),
    {
        let size: usize = data.len();
        if size < FOOTER_LEN {
            return Err(DbError::invalid_state("sstable is empty"));
        }
        match Footer::read(data.as_slice(), size - FOOTER_LEN) {
            Err(e) => Err(e),
            Ok(footer) => Ok(
                Self { data, pos: 0, block_remaining: 0, remaining: footer.bloom_off },
            ),
        }
    }

    /// The next entry, if there is one.
    pub fn next(&mut self) -> (r: DbResult<Option<(Key, Value)>>)
        requires
            old(self).wf(),
        ensures
            final(self).wf(),
            final(self)@.data == old(self)@.data,
            r matches Ok(None) ==> old(self)@.next() == (
                Ok::<Option<Entry>, Fault>(None),
                final(self)@,
            ),
            r matches Ok(Some((k, v))) ==> old(self)@.next() == (
                Ok::<Option<Entry>, Fault>(Some((k@, v@))),
                final(self)@,
            ),
            r matches Err(e) ==> old(self)@.next().1 == final(self)@ && (old(
                self,
            )@.next().0 matches Err(f) && e.reports(f)),
    {
        if self.remaining == 0 {
            return Ok(None);
        }
        if self.block_remaining == 0 {
            match self.check_block() {
                Err(e) => {
                    return Err(e);
                },
                Ok(_) => {},
            }
            if self.block_remaining == 0 {
                if self.remaining == 0 {
                    return Ok(None);
                }
                return Err(DbError::invalid_state("empty block before end of the table"));
            }
        }
        let at: usize = self.pos;
        self.pos = self.data.len();
        let (key, mid) = match read_key(self.data.as_slice(), at) {
            Ok(x) => x,
            Err(e) => {
                return Err(e);
            },
        };
        let (value, end) = match read_value(self.data.as_slice(), mid) {
            Ok(x) => x,
            Err(e) => {
                return Err(e);
            },
        };
        self.pos = end;
        let left: usize = self.block_remaining as usize;
        let key_len: usize = text::byte_len(key.0.as_str());
        let value_len: usize = value.heap_size();
        if key_len > left || value_len > left || key_len + value_len + 12 > left {
            return Err(DbError::invalid_state("entry crosses the block boundary"));
        }
        let used: usize = key_len + value_len + 12;
        self.block_remaining = (left - used) as u16;
        if used as u64 > self.remaining {
            return Err(DbError::invalid_state("entry runs past the last block"));
        }
        self.remaining = self.remaining - used as u64;
        Ok(Some((key, value)))
    }

    /// Checks the header of the next block and enters it.
    fn check_block(&mut self) -> (r: DbResult<()>)
        requires
            old(self).wf(),
        ensures
            final(self).wf(),
            r is Ok ==> old(self)@.header_fault() is None && final(self)@ == old(self)@.entered(),
            r matches Err(e) ==> final(self)@ == old(self)@.header_missed() && (old(
                self,
            )@.header_fault() matches Some(f) && e.reports(f)),
    {
        let at: usize = self.pos;
        let size: usize = self.data.len();
        if size - at < 6 {
            self.pos = size;
            return Err(DbError::IO(unexpected_eof()));
        }
        let sum: u32 = get_u32(self.data.as_slice(), at);
        let len: u16 = get_u16(self.data.as_slice(), at + 4);
        self.pos = at + 6;
        if self.remaining < 6 {
            return Err(DbError::invalid_state("truncated block header"));
        }
        self.remaining = self.remaining - 6;
        if size - at - 6 < len as usize {
            self.pos = size;
            return Err(DbError::IO(unexpected_eof()));
        }
        let end: usize = at + 6 + len as usize;
        let hash: u32 = checksum::checksum(slice_subrange(self.data.as_slice(), at + 6, end));
        if hash != sum {
            self.pos = end;
            return Err(DbError::invalid_state("block corrupted"));
        }
        self.block_remaining = len;
        Ok(())
    }

}

/// The content of pairs of keys and values.
pub open spec fn pairs(v: Seq<(Key, Value)>) -> Seq<Entry> {
    Seq::new(v.len(), |i: int| (v[i].0@, v[i].1@))
}

/// `rest` behind `first`, unless reading the rest failed.
pub open spec fn after(first: Seq<Entry>, rest: Result<Seq<Entry>, Fault>) -> Result<
    Seq<Entry>,
    Fault,
> {
    match rest {
        Ok(es) => Ok(first + es),
        Err(f) => Err(f),
    }
}

/// What a scan gives that moves past an entry.
pub proof fn lemma_all_step(v: ScanView, e: Entry, rest: Seq<Entry>)
    requires
        v.next().0 == Ok::<Option<Entry>, Fault>(Some(e)),
        v.next().1.all() == Ok::<Seq<Entry>, Fault>(rest),
    ensures
        v.all() == Ok::<Seq<Entry>, Fault>(seq![e] + rest),
{
    reveal(ScanView::all);
}

/// What a scan gives at its end.
pub proof fn lemma_all_done(v: ScanView)
    requires
        v.remaining == 0,
    ensures
        v.all() == Ok::<Seq<Entry>, Fault>(Seq::empty()),
{
    reveal(ScanView::all);
}

/// The scan of a file that begins with blocks, standing before entry `j` of
/// block `i`.
#[verifier::opaque]
pub open spec fn scan_at(file: Seq<u8>, bs: Seq<Seq<Entry>>, i: int, j: int) -> ScanView {
    let base = layout::data(bs.take(i)).len();
    let total = layout::data(bs).len();
    if j == 0 {
        ScanView { data: file, pos: base as int, block: 0, remaining: (total - base) as nat }
    } else {
        let used = base + 6 + layout::payload(bs[i].take(j)).len();
        ScanView {
            data: file,
            pos: used as int,
            block: layout::payload(bs[i].skip(j)).len(),
            remaining: (total - used) as nat,
        }
    }
}

/// Within a block the scan gives the entry at which it stands.
proof fn lemma_scan_entry(file: Seq<u8>, bs: Seq<Seq<Entry>>, i: int, j: int)
    requires
        layout::blocks_ok(bs),
        layout::data(bs).len() <= file.len(),
        file.take(layout::data(bs).len() as int) == layout::data(bs),
        0 <= i < bs.len(),
        0 <= j < bs[i].len(),
    ensures
        ({
            let base = layout::data(bs.take(i)).len();
            let used = base + 6 + layout::payload(bs[i].take(j)).len();
            let v = ScanView {
                data: file,
                pos: used as int,
                block: layout::payload(bs[i].skip(j)).len(),
                remaining: (layout::data(bs).len() - used) as nat,
            };
            &&& used <= layout::data(bs).len()
            &&& v.entry().0 == Ok::<Option<Entry>, Fault>(Some(layout::stored_entry(bs[i][j])))
            &&& j + 1 < bs[i].len() ==> v.entry().1 == scan_at(file, bs, i, j + 1)
            &&& j + 1 == bs[i].len() ==> v.entry().1 == scan_at(file, bs, i + 1, 0)
        }),
{
    reveal(scan_at);
    let b = bs[i];
    let e = b[j];
    let base = layout::data(bs.take(i)).len() as int;
    layout::lemma_block_at(bs, i);
    assert(layout::block_ok(b));
    cursor::law_block_checks(layout::payload(b));
    layout::lemma_entry_in_payload(b, j);
    layout::lemma_entry_in_data(bs, i, j);
    let m = encode::entry_bytes(e).len() as int;
    let used = base + 6 + layout::payload(b.take(j)).len();
    assert(file.subrange(used, used + m) =~= file.take(layout::data(bs).len() as int).subrange(
        used,
        used + m,
    ));
    encode::law_entry_round_trip(file, used, e);
    encode::lemma_entry_len(e);
    assert(entry_size(layout::stored_entry(e)) == m) by {
        if e.1.stored() != e.1 {
            text::lemma_encode_empty(e.1->Put_0);
        }
    }
    if j + 1 == b.len() {
        assert(b.take(j + 1) =~= b);
    }
}

/// Before a block the scan enters it.
proof fn lemma_scan_header(file: Seq<u8>, bs: Seq<Seq<Entry>>, i: int)
    requires
        layout::blocks_ok(bs),
        layout::data(bs).len() <= file.len(),
        file.take(layout::data(bs).len() as int) == layout::data(bs),
        0 <= i < bs.len(),
    ensures
        scan_at(file, bs, i, 0).remaining > 0,
        scan_at(file, bs, i, 0).header_fault() is None,
        scan_at(file, bs, i, 0).entered().pos == layout::data(bs.take(i)).len() + 6,
        scan_at(file, bs, i, 0).entered().block == layout::payload(bs[i]).len(),
        layout::payload(bs[i]).len() > 0,
{
    reveal(scan_at);
    let v = scan_at(file, bs, i, 0);
    let b = bs[i];
    let base = layout::data(bs.take(i)).len() as int;
    layout::lemma_block_at(bs, i);
    assert(layout::block_ok(b));
    let pay = layout::payload(b);
    cursor::law_block_checks(pay);
    let blk = cursor::block_bytes(pay);
    let len = pay.len() as int;
    assert(file.subrange(base, base + blk.len()) =~= blk) by {
        assert(file.subrange(base, base + blk.len()) =~= layout::data(bs).subrange(
            base,
            base + blk.len(),
        ));
    }
    let s = file.subrange(base, base + blk.len());
    assert(file.subrange(base, base + 4) =~= s.subrange(0, 4));
    assert(file.subrange(base + 4, base + 6) =~= s.subrange(4, 6));
    assert(file.subrange(base + 6, base + 6 + len) =~= s.subrange(6, 6 + len));
    encode::lemma_entry_len(b.last());
    assert(encode::number_at(file, base + 4, 2) == len);
}

/// The scan gives the entry before which it stands and moves behind it.
proof fn lemma_scan_step(file: Seq<u8>, bs: Seq<Seq<Entry>>, i: int, j: int)
    requires
        layout::blocks_ok(bs),
        layout::data(bs).len() <= file.len(),
        file.take(layout::data(bs).len() as int) == layout::data(bs),
        0 <= i < bs.len(),
        0 <= j < bs[i].len(),
    ensures
        scan_at(file, bs, i, j).next().0 == Ok::<Option<Entry>, Fault>(
            Some(layout::stored_entry(bs[i][j])),
        ),
        scan_at(file, bs, i, j).next().1 == (if j + 1 < bs[i].len() {
            scan_at(file, bs, i, j + 1)
        } else {
            scan_at(file, bs, i + 1, 0)
        }),
{
    reveal(scan_at);
    let v = scan_at(file, bs, i, j);
    let b = bs[i];
    lemma_scan_entry(file, bs, i, j);
    if j == 0 {
        lemma_scan_header(file, bs, i);
        assert(b.take(0) =~= Seq::<Entry>::empty());
        assert(layout::payload(b.take(0)).len() == 0);
        assert(b.skip(0) =~= b);
        assert(v.next() == v.entered().entry());
    } else {
        layout::lemma_entry_in_payload(b, j);
        layout::lemma_entry_in_data(bs, i, j);
        encode::lemma_entry_len(b[j]);
        assert(v.block > 0);
        assert(v.remaining > 0);
        assert(v.next() == v.entry());
    }
}

/// From any place on the scan gives the entries that are still to come.
proof fn lemma_scan_from(file: Seq<u8>, bs: Seq<Seq<Entry>>, i: int, j: int)
    requires
        layout::blocks_ok(bs),
        layout::data(bs).len() <= file.len(),
        file.take(layout::data(bs).len() as int) == layout::data(bs),
        0 <= i <= bs.len(),
        i < bs.len() ==> 0 <= j < bs[i].len(),
        i == bs.len() ==> j == 0,
    ensures
        scan_at(file, bs, i, j).all() == Ok::<Seq<Entry>, Fault>(
            layout::stored(bs.skip(i).flatten().skip(j)),
        ),
    decreases bs.len() - i, (if i < bs.len() { bs[i].len() - j } else { 0 }),
{
    let v = scan_at(file, bs, i, j);
    if i == bs.len() {
        assert(bs.take(i) =~= bs);
        assert(bs.skip(i) =~= Seq::<Seq<Entry>>::empty());
        assert(bs.skip(i).flatten() =~= Seq::<Entry>::empty());
        assert(layout::stored(bs.skip(i).flatten().skip(j)) =~= Seq::<Entry>::empty());
        assert(v.remaining == 0) by {
            reveal(scan_at);
        }
        lemma_all_done(v);
    } else {
        let b = bs[i];
        let e = b[j];
        let rest = bs.skip(i);
        let all = rest.flatten();
        assert(rest.first() == b);
        assert(rest.drop_first() =~= bs.skip(i + 1));
        assert(all == b + bs.skip(i + 1).flatten());
        lemma_scan_step(file, bs, i, j);
        if j + 1 < b.len() {
            lemma_scan_from(file, bs, i, j + 1);
        } else {
            if i + 1 < bs.len() {
                assert(layout::block_ok(bs[i + 1]));
            }
            lemma_scan_from(file, bs, i + 1, 0);
            assert(bs.skip(i + 1).flatten().skip(0) =~= all.skip(j + 1));
        }
        let tail = all.skip(j + 1);
        assert(v.next().1.all() == Ok::<Seq<Entry>, Fault>(layout::stored(tail)));
        lemma_all_step(v, layout::stored_entry(e), layout::stored(tail));
        assert(seq![layout::stored_entry(e)] + layout::stored(tail) =~= layout::stored(
            all.skip(j),
        ));
    }
}

/// The scan of a file that begins with the blocks of entries gives these
/// entries.
pub proof fn law_scan_blocks(file: Seq<u8>, bs: Seq<Seq<Entry>>)
    requires
        layout::blocks_ok(bs),
        layout::data(bs).len() <= file.len(),
        file.take(layout::data(bs).len() as int) == layout::data(bs),
    ensures
        (ScanView { data: file, pos: 0, block: 0, remaining: layout::data(bs).len() }).all() == Ok::<
            Seq<Entry>,
            Fault,
        >(layout::stored(bs.flatten())),
{
    reveal(scan_at);
    assert(bs.take(0) =~= Seq::<Seq<Entry>>::empty());
    assert(layout::data(bs.take(0)).len() == 0);
    lemma_scan_from(file, bs, 0, 0);
    assert(bs.skip(0) =~= bs);
    assert(bs.flatten().skip(0) =~= bs.flatten());
}

/// A scan enters a block exactly when its header is there and within the blocks, the
/// payload that it announces is there, and the checksum in it is that of the payload,
/// whatever its length.
pub proof fn law_scan_checks_blocks(v: ScanView)
    requires
        0 <= v.pos,
    ensures
        ({
            let (d, p) = (v.data, v.pos);
            let len = 256 * d[p + 4] + d[p + 5];
            let sum = 0x100_0000 * d[p] + 0x1_0000 * d[p + 1] + 0x100 * d[p + 2] + d[p + 3];
            &&& v.header_fault() is None <==> p + 6 + len <= d.len() && p + 6 <= d.len()
                && v.remaining >= 6 && checksum::crc32(d.subrange(p + 6, p + 6 + len)) == sum
            &&& p + 6 <= d.len() && v.remaining >= 6 && p + 6 + len <= d.len() && checksum::crc32(
                d.subrange(p + 6, p + 6 + len),
            ) != sum ==> v.header_fault() == Some(Fault::State("block corrupted"@))
        }),
        v.remaining > 0 && v.block == 0 && (v.header_fault() matches Some(f)) ==> v.next().0
            == Err::<Option<Entry>, Fault>(v.header_fault()->0),
{
    if v.pos + 6 <= v.data.len() {
        encode::law_number_of_bytes(v.data.subrange(v.pos, v.pos + 4));
        encode::law_number_of_bytes(v.data.subrange(v.pos + 4, v.pos + 6));
    }
}

/// A scan that fails at some step does not give all entries: what it met is its outcome.
pub proof fn law_scan_passes_over_nothing(v: ScanView)
    ensures
        match v.next().0 {
            Err(f) => v.all() == Err::<Seq<Entry>, Fault>(f),
            Ok(None) => v.all() == Ok::<Seq<Entry>, Fault>(Seq::empty()),
            Ok(Some(e)) => match v.next().1.all() {
                Err(f) => v.all() == Err::<Seq<Entry>, Fault>(f),
                Ok(rest) => v.all() == Ok::<Seq<Entry>, Fault>(seq![e] + rest),
            },
        },
{
    reveal(ScanView::all);
}

/// A scan within a block gives the entry at which it stands, if that is whole, stays
/// within the block and within all blocks; otherwise it fails.
pub proof fn law_scan_gives_entries(v: ScanView)
    requires
        v.block > 0,
        v.remaining > 0,
    ensures
        match encode::entry_at(v.data, v.pos) {
            None => v.next().0 == Err::<Option<Entry>, Fault>(Fault::Eof),
            Some((e, end)) => {
                let n = 12 + encode_utf8(e.0.user).len() + (match e.1 {
                    ValueView::Put(s) => encode_utf8(s).len(),
                    ValueView::Delete => 0,
                });
                &&& n <= v.block && n <= v.remaining ==> v.next().0 == Ok::<Option<Entry>, Fault>(
                    Some(e),
                ) && v.next().1.pos == end
                &&& n > v.block || n > v.remaining ==> v.next().0 is Err
            },
        },
{
}

} // verus!
