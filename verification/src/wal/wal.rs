//! A log of plain writes, without transactions.

use vstd::prelude::*;

use crate::common::error::{unexpected_eof, DbError, DbResult, Fault};
use crate::common::key::Key;
use crate::common::path;
use crate::common::value::Value;
use crate::common::versions::Entry;
use crate::sstable::encode;
use crate::sstable::encode::encode;
use crate::sstable::layout;
use crate::wal;
use crate::wal::reader::read_key_value;
use crate::wal::wal_id;

verus! {

/// The whole entries of a log from `at` on, up to its end or to an entry that has
/// been cut off.
#[verifier::opaque]
pub open spec fn entries_from(data: Seq<u8>, at: int) -> Seq<Entry>
    decreases data.len() - at,
{
    if at >= data.len() {
        Seq::empty()
    } else {
        match encode::entry_at(data, at) {
            None => Seq::empty(),
            Some((e, end)) => seq![e] + entries_from(data, end),
        }
    }
}

/// Whether a log from `at` on ends in an entry that has been cut off. Where not even
/// the length of the key is whole, the log just ends.
#[verifier::opaque]
pub open spec fn cut_from(data: Seq<u8>, at: int) -> bool
    decreases data.len() - at,
{
    if data.len() - at < 2 {
        false
    } else {
        match encode::entry_at(data, at) {
            None => true,
            Some((_, end)) => cut_from(data, end),
        }
    }
}

/// The end of a log. Entries are appended in memory and handed out to be
/// written to the file.
pub struct WalWriter {
    id: String,
    pending: Vec<u8>,
    log: Ghost<Seq<u8>>,
}

impl WalWriter {
    /// The name of the log.
    pub closed spec fn name(&self) -> Seq<char> {
        self.id@
    }

    /// All entries that have been appended.
    pub closed spec fn log(&self) -> Seq<u8> {
        self.log@
    }

    /// The entries that have not been handed out yet.
    pub closed spec fn unwritten(&self) -> Seq<u8> {
        self.pending@
    }

    /// The end of the log whose file is at `path`.
    pub fn open(path: &str) -> (r: DbResult<Self>)
        ensures
            r is Ok <==> path::file_name_of(path@) is Some,
            r matches Ok(w) ==> {
                &&& w.log() == Seq::<u8>::empty()
                &&& w.unwritten() == Seq::<u8>::empty()
                &&& path::file_name_of(path@) == Some(w.name())
            },
            r matches Err(e) ==> e.is_state("cannot get wal filename"@),
    {
        match wal_id(path) {
            Ok(id) => {
                let w = Self { id, pending: Vec::new(), log: Ghost(Seq::empty()) };
                assert(w.unwritten() =~= Seq::<u8>::empty());
                Ok(w)
            },
            Err(e) => Err(e),
        }
    }

    /// Appends an entry. What cannot be written is refused, and nothing of it is
    /// appended.
    pub fn append(&mut self, key: &Key, value: &Value) -> (r: DbResult<()>)
        ensures
            final(self).name() == old(self).name(),
            r is Ok <==> encode::entry_fits((key@, value@)),
            r is Ok ==> final(self).log() == old(self).log() + encode::entry_bytes(
                (key@, value@),
            ) && final(self).unwritten() == old(self).unwritten() + encode::entry_bytes(
                (key@, value@),
            ),
            r matches Err(e) ==> e is InvalidInt && final(self).log() == old(self).log()
                && final(self).unwritten() == old(self).unwritten(),
    {
        let start: usize = self.pending.len();
        match encode(&mut self.pending, key, value) {
            Ok(_) => {
                proof {
                    self.log@ = self.log@ + encode::entry_bytes((key@, value@));
                }
                Ok(())
            },
            Err(e) => {
                self.pending.truncate(start);
                assert(self.pending@ =~= old(self).pending@);
                Err(e)
            },
        }
    }

    /// Hands out the entries that are to be written to the file.
    pub fn take_unwritten(&mut self) -> (r: Vec<u8>)
        ensures
            r@ == old(self).unwritten(),
            final(self).unwritten() == Seq::<u8>::empty(),
            final(self).log() == old(self).log(),
            final(self).name() == old(self).name(),
    {
        let mut out: Vec<u8> = Vec::new();
        std::mem::swap(&mut out, &mut self.pending);
        assert(self.pending@ =~= Seq::<u8>::empty());
        out
    }

    /// The name of the log.
    pub fn id(&self) -> (r: &str)
        ensures
            r@ == self.name(),
    {
        self.id.as_str()
    }
}

/// A place in a log.
pub struct WalReader {
    id: String,
    data: Vec<u8>,
    pos: usize,
}

impl WalReader {
    /// The log.
    pub closed spec fn log(&self) -> Seq<u8> {
        self.data@
    }

    /// Where the reader stands.
    pub closed spec fn at(&self) -> int {
        self.pos as int
    }

    /// The name of the log.
    pub closed spec fn name(&self) -> Seq<char> {
        self.id@
    }

    /// The reader stands within the log.
    pub closed spec fn wf(&self) -> bool {
        self.pos <= self.data@.len()
    }

    /// The entries that are still to come.
    pub open spec fn rest(&self) -> Seq<Entry> {
        entries_from(self.log(), self.at())
    }

    /// Whether an entry that has been cut off comes behind them.
    pub open spec fn cut(&self) -> bool {
        cut_from(self.log(), self.at())
    }

    /// Starts to read the log `data`, whose file is at `path`.
    pub fn open(path: &str, data: Vec<u8>) -> (r: DbResult<Self>)
        ensures
            r is Ok <==> path::file_name_of(path@) is Some,
            r matches Ok(w) ==> {
                &&& w.wf()
                &&& w.log() == data@
                &&& w.at() == 0
                &&& path::file_name_of(path@) == Some(w.name())
            },
            r matches Err(e) ==> e.is_state("cannot get wal filename"@),
    {
        match wal_id(path) {
            Ok(id) => Ok(Self { id, data, pos: 0 }),
            Err(e) => Err(e),
        }
    }

    /// The next entry, or nothing at the end of the log. An entry that has been cut
    /// off is reported. Either way nothing is left to read then.
    pub fn next(&mut self) -> (r: DbResult<Option<(Key, Value)>>)
        requires
            old(self).wf(),
        ensures
            final(self).wf(),
            final(self).log() == old(self).log(),
            final(self).name() == old(self).name(),
            match r {
                Ok(Some((k, v))) => {
                    &&& old(self).rest().len() > 0
                    &&& old(self).rest()[0] == (k@, v@)
                    &&& final(self).rest() == old(self).rest().drop_first()
                    &&& final(self).cut() == old(self).cut()
                    &&& final(self).at() > old(self).at()
                },
                Ok(None) => {
                    &&& old(self).rest().len() == 0
                    &&& !old(self).cut()
                    &&& final(self).at() == final(self).log().len()
                },
                Err(e) => {
                    &&& old(self).rest().len() == 0
                    &&& old(self).cut()
                    &&& e.reports(Fault::Eof)
                    &&& final(self).at() == final(self).log().len()
                },
            },
            final(self).at() <= final(self).log().len(),
    {
        reveal(entries_from);
        reveal(cut_from);
        if self.data.len() - self.pos < 2 {
            self.pos = self.data.len();
            return Ok(None);
        }
        match read_key_value(self.data.as_slice(), self.pos) {
            None => {
                self.pos = self.data.len();
                Err(DbError::from(unexpected_eof()))
            },
            Some((key, value, end)) => {
                self.pos = end;
                assert((seq![(key@, value@)] + self.rest()).drop_first() =~= self.rest());
                Ok(Some((key, value)))
            },
        }
    }

    /// The name of the log.
    pub fn id(&self) -> (r: &str)
        ensures
            r@ == self.name(),
    {
        self.id.as_str()
    }
}

/// How many of the entries are whole within the first `n` bytes.
pub open spec fn whole_entries(es: Seq<Entry>, n: int) -> nat
    decreases es.len(),
{
    if es.len() == 0 || n < encode::entry_bytes(es[0]).len() {
        0
    } else {
        1 + whole_entries(es.drop_first(), n - encode::entry_bytes(es[0]).len())
    }
}

/// How many of the first `n` bytes are behind the entries that are whole.
pub open spec fn torn_bytes(es: Seq<Entry>, n: int) -> int
    decreases es.len(),
{
    if es.len() == 0 || n < encode::entry_bytes(es[0]).len() {
        n
    } else {
        torn_bytes(es.drop_first(), n - encode::entry_bytes(es[0]).len())
    }
}

proof fn lemma_torn_from(data: Seq<u8>, at: int, es: Seq<Entry>)
    requires
        0 <= at <= data.len(),
        data.len() - at <= layout::payload(es).len(),
        data.skip(at) == layout::payload(es).take(data.len() - at),
        wal::all_fit(es),
    ensures
        whole_entries(es, data.len() - at) <= es.len(),
        entries_from(data, at) == layout::stored(
            es.take(whole_entries(es, data.len() - at) as int),
        ),
        cut_from(data, at) <==> torn_bytes(es, data.len() - at) >= 2,
        data.len() - at == layout::payload(es).len() ==> torn_bytes(es, data.len() - at) == 0,
        data.len() - at == layout::payload(es).len() ==> whole_entries(es, data.len() - at)
            == es.len(),
    decreases es.len(),
{
    reveal(entries_from);
    reveal(cut_from);
    let left = data.len() - at;
    assert(data.subrange(at, at + left) =~= data.skip(at));
    if es.len() == 0 {
        assert(layout::stored(es.take(0)) =~= Seq::<Entry>::empty());
    } else {
        let e = es[0];
        let rest = es.drop_first();
        assert(encode::entry_fits(e));
        assert(es =~= seq![e] + rest);
        layout::lemma_payload_join(seq![e], rest);
        layout::lemma_payload_one(e);
        encode::lemma_entry_len(e);
        let whole = layout::payload(es);
        if left < encode::entry_bytes(e).len() {
            assert(data.skip(at) =~= encode::entry_bytes(e).take(left));
            wal::lemma_entry_torn(data, at, e);
            assert(layout::stored(es.take(0)) =~= Seq::<Entry>::empty());
        } else {
            let n = encode::entry_bytes(e).len() as int;
            wal::lemma_prefix_part(data, at, whole, left, 0, n);
            assert(whole.subrange(0, n) =~= encode::entry_bytes(e));
            encode::law_entry_round_trip(data, at, e);
            wal::lemma_prefix_part(data, at, whole, left, n, left);
            assert(data.skip(at + n) =~= data.subrange(at + n, at + left));
            assert(whole.subrange(n, left) =~= layout::payload(rest).take(left - n));
            assert forall|i: int| 0 <= i < rest.len() implies encode::entry_fits(
                #[trigger] rest[i],
            ) by {
                assert(rest[i] == es[i + 1]);
            }
            lemma_torn_from(data, at + n, rest);
            let k = whole_entries(rest, left - n) as int;
            assert(seq![layout::stored_entry(e)] + layout::stored(rest.take(k))
                =~= layout::stored(es.take(k + 1)));
        }
    }
}

/// A log that was cut off anywhere gives back the entries that are whole. What is
/// left of the next one is reported if the length of its key is whole, and ignored
/// otherwise.
pub proof fn law_torn_log(es: Seq<Entry>, n: int)
    requires
        wal::all_fit(es),
        0 <= n <= layout::payload(es).len(),
    ensures
        whole_entries(es, n) <= es.len(),
        entries_from(layout::payload(es).take(n), 0) == layout::stored(
            es.take(whole_entries(es, n) as int),
        ),
        cut_from(layout::payload(es).take(n), 0) <==> torn_bytes(es, n) >= 2,
{
    let data = layout::payload(es).take(n);
    assert(data.skip(0) =~= layout::payload(es).take(n));
    lemma_torn_from(data, 0, es);
}

/// A log gives back the entries that were written.
pub proof fn law_log_round_trip(es: Seq<Entry>)
    requires
        wal::all_fit(es),
    ensures
        entries_from(layout::payload(es), 0) == layout::stored(es),
        !cut_from(layout::payload(es), 0),
{
    let data = layout::payload(es);
    let n = data.len() as int;
    assert(data.skip(0) =~= data.take(n));
    lemma_torn_from(data, 0, es);
    assert(es.take(es.len() as int) =~= es);
}

/// All entries of a log that was written whole are whole.
pub proof fn law_whole_log(es: Seq<Entry>)
    requires
        wal::all_fit(es),
    ensures
        es.take(whole_entries(es, layout::payload(es).len() as int) as int) == es,
        torn_bytes(es, layout::payload(es).len() as int) == 0,
{
    let data = layout::payload(es);
    let n = data.len() as int;
    assert(data.skip(0) =~= data.take(n));
    lemma_torn_from(data, 0, es);
    assert(es.take(es.len() as int) =~= es);
}

/// More entries take more bytes.
proof fn lemma_more_entries(es: Seq<Entry>, n: int, j: int)
    requires
        0 <= j <= es.len(),
    ensures
        whole_entries(es, n) >= j <==> j == 0 || layout::payload(es.take(j)).len() <= n,
        whole_entries(es, n) <= es.len(),
    decreases es.len(),
{
    if es.len() > 0 {
        let (e, rest) = (es[0], es.drop_first());
        let size = encode::entry_bytes(e).len() as int;
        if j > 0 {
            assert(es.take(j) =~= seq![e] + rest.take(j - 1));
            layout::lemma_payload_join(seq![e], rest.take(j - 1));
            layout::lemma_payload_one(e);
        }
        if n >= size {
            lemma_more_entries(rest, n - size, if j > 0 { j - 1 } else { 0 });
            if j == 1 {
                assert(rest.take(0) =~= Seq::<Entry>::empty());
            }
        }
    }
}

/// Of a log that was cut off behind `n` bytes the first `j` entries come back exactly
/// when all their bytes are within the first `n`.
pub proof fn law_entry_survives_if_its_bytes_do(es: Seq<Entry>, n: int, j: int)
    requires
        0 <= n <= layout::payload(es).len(),
        0 <= j <= es.len(),
    ensures
        whole_entries(es, n) >= j <==> layout::payload(es.take(j)).len() <= n,
        whole_entries(es, n) <= es.len(),
        torn_bytes(es, n) == n - layout::payload(es.take(whole_entries(es, n) as int)).len(),
{
    lemma_more_entries(es, n, j);
    assert(layout::payload(es.take(0)).len() == 0);
    lemma_torn_bytes(es, n);
}

proof fn lemma_torn_bytes(es: Seq<Entry>, n: int)
    ensures
        whole_entries(es, n) <= es.len(),
        torn_bytes(es, n) == n - layout::payload(es.take(whole_entries(es, n) as int)).len(),
    decreases es.len(),
{
    let k = whole_entries(es, n) as int;
    if es.len() == 0 || n < encode::entry_bytes(es[0]).len() {
        assert(layout::payload(es.take(0)).len() == 0);
    } else {
        let (e, rest) = (es[0], es.drop_first());
        let size = encode::entry_bytes(e).len() as int;
        lemma_torn_bytes(rest, n - size);
        assert(es.take(k) =~= seq![e] + rest.take(k - 1));
        layout::lemma_payload_join(seq![e], rest.take(k - 1));
        layout::lemma_payload_one(e);
    }
}

/// A log goes on behind a whole entry, and ends only where fewer than two bytes are left;
/// anything else is an entry that has been cut off.
pub proof fn law_log_goes_on(data: Seq<u8>, at: int)
    requires
        0 <= at <= data.len(),
    ensures
        encode::entry_at(data, at) matches Some((e, end)) ==> entries_from(data, at) == seq![e]
            + entries_from(data, end) && cut_from(data, at) == cut_from(data, end),
        encode::entry_at(data, at) is None ==> entries_from(data, at) == Seq::<Entry>::empty() && (
        cut_from(data, at) <==> data.len() - at >= 2),
{
    reveal(entries_from);
    reveal(cut_from);
}

} // verus!
