//! The write-ahead log: a file of commands from which the tables in memory are
//! made again after a crash.

use vstd::prelude::*;
use vstd::utf8::*;

use crate::common::error::{DbError, DbResult};
use crate::common::key::Key;
use crate::common::path;
use crate::common::value::{Value, ValueView};
use crate::common::versions::Entry;
use crate::sstable::encode;
use crate::sstable::layout;
use crate::sstable::scan::table as scan_table;

pub mod reader;
pub mod wal;
pub mod writer;

verus! {

/// The first byte of a record that begins a transaction.
pub const TX_BEGIN_CMD: u8 = 1;

/// The first byte of a record that commits a transaction.
pub const TX_COMMIT_CMD: u8 = 2;

/// The first byte of a record with one write.
pub const OP_CMD: u8 = 3;

/// The first byte of a record with several writes.
pub const BATCH_CMD: u8 = 4;

/// A command in the log.
#[derive(Debug)]
pub enum WalCmd {
    /// The transaction begins.
    TxBegin(u64),
    /// The transaction is committed.
    TxCommit(u64),
    /// A write of the transaction.
    Op(u64, Key, Value),
    /// Writes of the transaction.
    Batch(u64, Vec<(Key, Value)>),
}

/// The mathematical content of a [`WalCmd`].
pub enum CmdView {
    /// The transaction begins.
    TxBegin(u64),
    /// The transaction is committed.
    TxCommit(u64),
    /// A write of the transaction.
    Op(u64, Entry),
    /// Writes of the transaction.
    Batch(u64, Seq<Entry>),
}

impl View for WalCmd {
    type V = CmdView;

    open spec fn view(&self) -> CmdView {
        match self {
            WalCmd::TxBegin(id) => CmdView::TxBegin(*id),
            WalCmd::TxCommit(id) => CmdView::TxCommit(*id),
            WalCmd::Op(id, k, v) => CmdView::Op(*id, (k@, v@)),
            WalCmd::Batch(id, batch) => CmdView::Batch(*id, scan_table::pairs(batch@)),
        }
    }
}

impl CmdView {
    /// The record of this command.
    pub open spec fn bytes(self) -> Seq<u8> {
        match self {
            CmdView::TxBegin(id) => seq![TX_BEGIN_CMD] + encode::be(id as nat, 8),
            CmdView::TxCommit(id) => seq![TX_COMMIT_CMD] + encode::be(id as nat, 8),
            CmdView::Op(id, e) => seq![OP_CMD] + encode::be(id as nat, 8) + encode::entry_bytes(e),
            CmdView::Batch(id, es) => seq![BATCH_CMD] + encode::be(es.len(), 2) + encode::be(
                id as nat,
                8,
            ) + layout::payload(es),
        }
    }

    /// Whether this command can be written.
    pub open spec fn fits(self) -> bool {
        match self {
            CmdView::TxBegin(_) => true,
            CmdView::TxCommit(_) => true,
            CmdView::Op(_, e) => encode::entry_fits(e),
            CmdView::Batch(_, es) => es.len() <= u16::MAX && all_fit(es),
        }
    }

    /// What the log gives back for this command.
    pub open spec fn stored(self) -> CmdView {
        match self {
            CmdView::TxBegin(id) => self,
            CmdView::TxCommit(id) => self,
            CmdView::Op(id, e) => CmdView::Op(id, layout::stored_entry(e)),
            CmdView::Batch(id, es) => CmdView::Batch(id, layout::stored(es)),
        }
    }
}

/// Whether all entries can be written.
pub open spec fn all_fit(es: Seq<Entry>) -> bool {
    forall|i: int| 0 <= i < es.len() ==> encode::entry_fits(#[trigger] es[i])
}

/// The records of commands, one after the other.
pub open spec fn log_bytes(cs: Seq<CmdView>) -> Seq<u8>
    decreases cs.len(),
{
    if cs.len() == 0 {
        Seq::empty()
    } else {
        log_bytes(cs.drop_last()) + cs.last().bytes()
    }
}

/// What stands at a place of a log.
pub enum Record {
    /// Nothing, or a record that has been cut off.
    End,
    /// A record that begins with a byte which is no command.
    Unknown(u8),
    /// A command, and where its record ends.
    Cmd(CmdView, int),
}

/// The `n` entries at `at` and where they end, unless the data ends before they
/// do.
pub open spec fn entries_at(data: Seq<u8>, at: int, n: nat) -> Option<(Seq<Entry>, int)>
    decreases n,
{
    if n == 0 {
        Some((Seq::empty(), at))
    } else {
        match entries_at(data, at, (n - 1) as nat) {
            None => None,
            Some((es, mid)) => match encode::entry_at(data, mid) {
                None => None,
                Some((e, end)) => Some((es.push(e), end)),
            },
        }
    }
}

/// What stands at `at` in the log `data`.
pub open spec fn record_at(data: Seq<u8>, at: int) -> Record {
    if at >= data.len() {
        Record::End
    } else if data[at] == TX_BEGIN_CMD || data[at] == TX_COMMIT_CMD {
        if at + 9 > data.len() {
            Record::End
        } else {
            let id = encode::number_at(data, at + 1, 8) as u64;
            if data[at] == TX_BEGIN_CMD {
                Record::Cmd(CmdView::TxBegin(id), at + 9)
            } else {
                Record::Cmd(CmdView::TxCommit(id), at + 9)
            }
        }
    } else if data[at] == OP_CMD {
        if at + 9 > data.len() {
            Record::End
        } else {
            match encode::entry_at(data, at + 9) {
                None => Record::End,
                Some((e, end)) => Record::Cmd(
                    CmdView::Op(encode::number_at(data, at + 1, 8) as u64, e),
                    end,
                ),
            }
        }
    } else if data[at] == BATCH_CMD {
        if at + 11 > data.len() {
            Record::End
        } else {
            match entries_at(data, at + 11, encode::number_at(data, at + 1, 2)) {
                None => Record::End,
                Some((es, end)) => Record::Cmd(
                    CmdView::Batch(encode::number_at(data, at + 3, 8) as u64, es),
                    end,
                ),
            }
        }
    } else {
        Record::Unknown(data[at])
    }
}

/// Entries end behind where they begin.
pub proof fn lemma_entries_end(data: Seq<u8>, at: int, n: nat)
    requires
        0 <= at <= data.len(),
    ensures
        entries_at(data, at, n) matches Some((es, end)) ==> at <= end <= data.len() && es.len()
            == n,
    decreases n,
{
    if n > 0 {
        lemma_entries_end(data, at, (n - 1) as nat);
    }
}

/// A record ends behind where it begins.
pub proof fn lemma_record_end(data: Seq<u8>, at: int)
    requires
        0 <= at,
    ensures
        record_at(data, at) matches Record::Cmd(c, end) ==> at < end <= data.len(),
{
    if at < data.len() && data[at] == BATCH_CMD && at + 11 <= data.len() {
        lemma_entries_end(data, at + 11, encode::number_at(data, at + 1, 2));
    }
}

/// All commands from `at` on: up to the end of the log, or the byte that is no
/// command.
#[verifier::opaque]
pub open spec fn commands(data: Seq<u8>, at: int) -> (Seq<CmdView>, Option<u8>)
    decreases data.len() - at,
{
    match record_at(data, at) {
        Record::End => (Seq::empty(), None),
        Record::Unknown(b) => (Seq::empty(), Some(b)),
        Record::Cmd(c, end) => if at < end <= data.len() {
            let (cs, bad) = commands(data, end);
            (seq![c] + cs, bad)
        } else {
            (Seq::empty(), None)
        },
    }
}

/// A part that begins at the beginning.
pub proof fn lemma_prefix_part(data: Seq<u8>, at: int, whole: Seq<u8>, n: int, i: int, j: int)
    requires
        0 <= at,
        at + n <= data.len(),
        0 <= i <= j <= n <= whole.len(),
        data.subrange(at, at + n) == whole.take(n),
    ensures
        data.subrange(at + i, at + j) == whole.subrange(i, j),
{
    assert forall|x: int| 0 <= x < j - i implies data.subrange(at + i, at + j)[x]
        == whole.subrange(i, j)[x] by {
        let y = i + x;
        assert(data.subrange(at, at + n)[y] == data[at + y]);
        assert(whole.take(n)[y] == whole[y]);
    }
    assert(data.subrange(at + i, at + j) =~= whole.subrange(i, j));
}

/// An entry that has been cut off is not read.
pub proof fn lemma_entry_torn(data: Seq<u8>, at: int, e: Entry)
    requires
        0 <= at <= data.len(),
        data.len() - at < encode::entry_bytes(e).len(),
        data.skip(at) == encode::entry_bytes(e).take(data.len() - at),
        encode::entry_fits(e),
    ensures
        encode::entry_at(data, at) is None,
{
    reveal(encode::entry_bytes);
    let whole = encode::entry_bytes(e);
    let n = data.len() - at;
    let kb = encode::key_bytes(e.0);
    encode::lemma_entry_len(e);
    encode::lemma_be(e.0.text_len(), 2);
    encode::lemma_be(e.0.seq as nat, 8);
    encode::lemma_be(e.1.text_len(), 2);
    encode::lemma_be_limits();
    assert(data.subrange(at, at + n) =~= data.skip(at));
    if n >= 2 {
        lemma_prefix_part(data, at, whole, n, 0, 2);
        assert(whole.subrange(0, 2) =~= encode::be(e.0.text_len(), 2));
        assert(encode::number_at(data, at, 2) == e.0.text_len());
        if n >= kb.len() {
            let m = kb.len() as int;
            lemma_prefix_part(data, at, whole, n, 0, m);
            assert(whole.subrange(0, m) =~= kb);
            encode::law_key_round_trip(data, at, e.0);
            if n >= m + 2 {
                lemma_prefix_part(data, at, whole, n, m, m + 2);
                assert(whole.subrange(m, m + 2) =~= encode::be(e.1.text_len(), 2));
                assert(encode::number_at(data, at + m, 2) == e.1.text_len());
            }
        }
    }
}

/// Entries that were written are read back, empty texts as deletion marks.
pub proof fn lemma_entries_round_trip(data: Seq<u8>, at: int, es: Seq<Entry>)
    requires
        0 <= at,
        at + layout::payload(es).len() <= data.len(),
        data.subrange(at, at + layout::payload(es).len()) == layout::payload(es),
        all_fit(es),
    ensures
        entries_at(data, at, es.len()) == Some(
            (layout::stored(es), at + layout::payload(es).len()),
        ),
    decreases es.len(),
{
    if es.len() == 0 {
        assert(layout::stored(es) =~= Seq::<Entry>::empty());
    } else {
        let prev = es.drop_last();
        let e = es.last();
        let n = layout::payload(prev).len() as int;
        let m = layout::payload(es).len() as int;
        let s = data.subrange(at, at + m);
        assert(data.subrange(at, at + n) =~= s.subrange(0, n));
        assert(s.subrange(0, n) =~= layout::payload(prev));
        assert(data.subrange(at + n, at + m) =~= s.subrange(n, m));
        assert(s.subrange(n, m) =~= encode::entry_bytes(e));
        assert forall|i: int| 0 <= i < prev.len() implies encode::entry_fits(
            #[trigger] prev[i],
        ) by {
            assert(prev[i] == es[i]);
        }
        lemma_entries_round_trip(data, at, prev);
        assert(encode::entry_fits(es[es.len() - 1]));
        encode::law_entry_round_trip(data, at + n, e);
        assert(layout::stored(prev).push(layout::stored_entry(e)) =~= layout::stored(es));
    }
}

/// Entries that have been cut off are not read.
proof fn lemma_entries_torn(data: Seq<u8>, at: int, es: Seq<Entry>)
    requires
        0 <= at <= data.len(),
        data.len() - at < layout::payload(es).len(),
        data.skip(at) == layout::payload(es).take(data.len() - at),
        all_fit(es),
    ensures
        entries_at(data, at, es.len()) is None,
    decreases es.len(),
{
    let prev = es.drop_last();
    let e = es.last();
    let whole = layout::payload(es);
    let left = data.len() - at;
    let n = layout::payload(prev).len() as int;
    assert(es.len() > 0);
    assert forall|i: int| 0 <= i < prev.len() implies encode::entry_fits(#[trigger] prev[i]) by {
        assert(prev[i] == es[i]);
    }
    assert(encode::entry_fits(es[es.len() - 1]));
    assert(data.subrange(at, at + left) =~= data.skip(at));
    if left < n {
        assert(data.skip(at) =~= layout::payload(prev).take(left));
        lemma_entries_torn(data, at, prev);
    } else {
        lemma_prefix_part(data, at, whole, left, 0, n);
        assert(whole.subrange(0, n) =~= layout::payload(prev));
        lemma_entries_round_trip(data, at, prev);
        lemma_prefix_part(data, at, whole, left, n, left);
        assert(data.skip(at + n) =~= data.subrange(at + n, at + left));
        assert(whole.subrange(n, left) =~= encode::entry_bytes(e).take(left - n));
        lemma_entry_torn(data, at + n, e);
    }
}

/// A record that was written is read back.
pub proof fn law_record_round_trip(data: Seq<u8>, at: int, c: CmdView)
    requires
        0 <= at,
        at + c.bytes().len() <= data.len(),
        data.subrange(at, at + c.bytes().len()) == c.bytes(),
        c.fits(),
    ensures
        c.bytes().len() >= 9,
        record_at(data, at) == Record::Cmd(c.stored(), at + c.bytes().len()),
{
    let b = c.bytes();
    let n = b.len() as int;
    assert(data.subrange(at, at + n) =~= b.take(n));
    encode::lemma_be_limits();
    match c {
        CmdView::TxBegin(id) => {
            encode::lemma_be(id as nat, 8);
            lemma_prefix_part(data, at, b, n, 1, 9);
            assert(b.subrange(1, 9) =~= encode::be(id as nat, 8));
        },
        CmdView::TxCommit(id) => {
            encode::lemma_be(id as nat, 8);
            lemma_prefix_part(data, at, b, n, 1, 9);
            assert(b.subrange(1, 9) =~= encode::be(id as nat, 8));
        },
        CmdView::Op(id, e) => {
            encode::lemma_be(id as nat, 8);
            lemma_prefix_part(data, at, b, n, 1, 9);
            assert(b.subrange(1, 9) =~= encode::be(id as nat, 8));
            lemma_prefix_part(data, at, b, n, 9, n);
            assert(b.subrange(9, n) =~= encode::entry_bytes(e));
            encode::law_entry_round_trip(data, at + 9, e);
        },
        CmdView::Batch(id, es) => {
            encode::lemma_be(id as nat, 8);
            encode::lemma_be(es.len(), 2);
            lemma_prefix_part(data, at, b, n, 1, 3);
            assert(b.subrange(1, 3) =~= encode::be(es.len(), 2));
            lemma_prefix_part(data, at, b, n, 3, 11);
            assert(b.subrange(3, 11) =~= encode::be(id as nat, 8));
            lemma_prefix_part(data, at, b, n, 11, n);
            assert(b.subrange(11, n) =~= layout::payload(es));
            lemma_entries_round_trip(data, at + 11, es);
        },
    }
    assert(data.subrange(at, at + n)[0] == data[at]);
}

/// A record that has been cut off ends the log.
pub proof fn lemma_record_torn(data: Seq<u8>, at: int, c: CmdView)
    requires
        0 <= at <= data.len(),
        data.len() - at < c.bytes().len(),
        data.skip(at) == c.bytes().take(data.len() - at),
        c.fits(),
    ensures
        record_at(data, at) is End,
{
    let b = c.bytes();
    let left = data.len() - at;
    encode::lemma_be_limits();
    assert(data.subrange(at, at + left) =~= data.skip(at));
    if left > 0 {
        assert(data.skip(at)[0] == data[at]);
        match c {
            CmdView::TxBegin(id) => {
                encode::lemma_be(id as nat, 8);
            },
            CmdView::TxCommit(id) => {
                encode::lemma_be(id as nat, 8);
            },
            CmdView::Op(id, e) => {
                encode::lemma_be(id as nat, 8);
                if left >= 9 {
                    lemma_prefix_part(data, at, b, left, 9, left);
                    assert(data.skip(at + 9) =~= data.subrange(at + 9, at + left));
                    assert(b.subrange(9, left) =~= encode::entry_bytes(e).take(left - 9));
                    lemma_entry_torn(data, at + 9, e);
                }
            },
            CmdView::Batch(id, es) => {
                encode::lemma_be(id as nat, 8);
                encode::lemma_be(es.len(), 2);
                if left >= 11 {
                    lemma_prefix_part(data, at, b, left, 1, 3);
                    assert(b.subrange(1, 3) =~= encode::be(es.len(), 2));
                    lemma_prefix_part(data, at, b, left, 11, left);
                    assert(data.skip(at + 11) =~= data.subrange(at + 11, at + left));
                    assert(b.subrange(11, left) =~= layout::payload(es).take(left - 11));
                    lemma_entries_torn(data, at + 11, es);
                }
            },
        }
    }
}

/// Whether all commands can be written.
pub open spec fn all_cmds_fit(cs: Seq<CmdView>) -> bool {
    forall|i: int| 0 <= i < cs.len() ==> (#[trigger] cs[i]).fits()
}

/// What a log gives back for commands.
pub open spec fn stored_cmds(cs: Seq<CmdView>) -> Seq<CmdView> {
    Seq::new(cs.len(), |i: int| cs[i].stored())
}

/// The records of a command and of those behind it.
pub proof fn lemma_log_first(cs: Seq<CmdView>)
    requires
        cs.len() > 0,
    ensures
        log_bytes(cs) == cs[0].bytes() + log_bytes(cs.drop_first()),
    decreases cs.len(),
{
    let rest = cs.drop_first();
    if cs.len() == 1 {
        assert(log_bytes(cs.drop_last()).len() == 0);
        assert(log_bytes(rest).len() == 0);
        assert(log_bytes(cs) =~= cs[0].bytes() + log_bytes(rest));
    } else {
        lemma_log_first(cs.drop_last());
        assert(cs.drop_last().drop_first() =~= rest.drop_last());
        assert(log_bytes(cs) =~= cs[0].bytes() + log_bytes(rest));
    }
}

/// The records of commands and of those appended to them.
pub proof fn lemma_log_join(a: Seq<CmdView>, b: Seq<CmdView>)
    ensures
        log_bytes(a + b) == log_bytes(a) + log_bytes(b),
    decreases b.len(),
{
    if b.len() == 0 {
        assert(a + b =~= a);
        assert(log_bytes(a + b) =~= log_bytes(a) + log_bytes(b));
    } else {
        assert((a + b).drop_last() =~= a + b.drop_last());
        lemma_log_join(a, b.drop_last());
        assert(log_bytes(a + b) =~= log_bytes(a) + log_bytes(b));
    }
}

/// How many of the commands have their whole record within the first `n` bytes.
pub open spec fn whole_records(cs: Seq<CmdView>, n: int) -> nat
    decreases cs.len(),
{
    if cs.len() == 0 || n < cs[0].bytes().len() {
        0
    } else {
        1 + whole_records(cs.drop_first(), n - cs[0].bytes().len())
    }
}

/// How many records are whole.
pub proof fn lemma_whole_records(cs: Seq<CmdView>, n: int)
    requires
        0 <= n <= log_bytes(cs).len(),
    ensures
        whole_records(cs, n) <= cs.len(),
        log_bytes(cs.take(whole_records(cs, n) as int)).len() <= n,
        whole_records(cs, n) < cs.len() ==> n < log_bytes(
            cs.take(whole_records(cs, n) as int + 1),
        ).len(),
        n == log_bytes(cs).len() && all_cmds_fit(cs) ==> whole_records(cs, n) == cs.len(),
    decreases cs.len(),
{
    let k = whole_records(cs, n) as int;
    if cs.len() == 0 {
        assert(cs.take(0) =~= cs);
    } else if n < cs[0].bytes().len() {
        lemma_log_first(cs);
        lemma_log_first(cs.take(1));
        assert(cs.take(1).drop_first() =~= Seq::<CmdView>::empty());
        assert(log_bytes(cs.take(1).drop_first()).len() == 0);
        assert(log_bytes(cs.take(0)).len() == 0);
    } else {
        let rest = cs.drop_first();
        let m = n - cs[0].bytes().len();
        lemma_log_first(cs);
        lemma_whole_records(rest, m);
        lemma_log_first(cs.take(k));
        assert(cs.take(k).drop_first() =~= rest.take(k - 1));
        if k < cs.len() {
            lemma_log_first(cs.take(k + 1));
            assert(cs.take(k + 1).drop_first() =~= rest.take(k));
        }
        if all_cmds_fit(cs) {
            assert forall|i: int| 0 <= i < rest.len() implies (#[trigger] rest[i]).fits() by {
                assert(rest[i] == cs[i + 1]);
            }
        }
    }
}

proof fn lemma_torn_from(data: Seq<u8>, at: int, cs: Seq<CmdView>)
    requires
        0 <= at <= data.len(),
        data.len() - at <= log_bytes(cs).len(),
        data.skip(at) == log_bytes(cs).take(data.len() - at),
        all_cmds_fit(cs),
    ensures
        commands(data, at) == (
            stored_cmds(cs.take(whole_records(cs, data.len() - at) as int)),
            None::<u8>,
        ),
    decreases cs.len(),
{
    reveal(commands);
    let left = data.len() - at;
    assert(data.subrange(at, at + left) =~= data.skip(at));
    if cs.len() == 0 {
        assert(stored_cmds(cs.take(0)) =~= Seq::<CmdView>::empty());
    } else {
        let c = cs[0];
        let rest = cs.drop_first();
        assert(c.fits());
        lemma_log_first(cs);
        if left < c.bytes().len() {
            assert(data.skip(at) =~= c.bytes().take(left));
            lemma_record_torn(data, at, c);
            assert(stored_cmds(cs.take(0)) =~= Seq::<CmdView>::empty());
        } else {
            let n = c.bytes().len() as int;
            lemma_prefix_part(data, at, log_bytes(cs), left, 0, n);
            assert(log_bytes(cs).subrange(0, n) =~= c.bytes());
            law_record_round_trip(data, at, c);
            lemma_prefix_part(data, at, log_bytes(cs), left, n, left);
            assert(data.skip(at + n) =~= data.subrange(at + n, at + left));
            assert(log_bytes(cs).subrange(n, left) =~= log_bytes(rest).take(left - n));
            assert forall|i: int| 0 <= i < rest.len() implies (#[trigger] rest[i]).fits() by {
                assert(rest[i] == cs[i + 1]);
            }
            lemma_torn_from(data, at + n, rest);
            let k = whole_records(rest, left - n) as int;
            lemma_whole_records(rest, left - n);
            assert(seq![c.stored()] + stored_cmds(rest.take(k)) =~= stored_cmds(cs.take(k + 1)));
        }
    }
}

/// A log that was cut off anywhere gives back the commands whose records are
/// whole, and nothing else.
pub proof fn law_torn_log(cs: Seq<CmdView>, n: int)
    requires
        all_cmds_fit(cs),
        0 <= n <= log_bytes(cs).len(),
    ensures
        commands(log_bytes(cs).take(n), 0) == (
            stored_cmds(cs.take(whole_records(cs, n) as int)),
            None::<u8>,
        ),
{
    let data = log_bytes(cs).take(n);
    assert(data.skip(0) =~= log_bytes(cs).take(n));
    lemma_torn_from(data, 0, cs);
}

/// A log gives back the commands that were written.
pub proof fn law_log_round_trip(cs: Seq<CmdView>)
    requires
        all_cmds_fit(cs),
    ensures
        commands(log_bytes(cs), 0) == (stored_cmds(cs), None::<u8>),
{
    let n = log_bytes(cs).len() as int;
    assert(log_bytes(cs).take(n) =~= log_bytes(cs));
    law_torn_log(cs, n);
    lemma_whole_records(cs, n);
    assert(cs.take(cs.len() as int) =~= cs);
}

/// The number of a log: the name of its file.
pub fn wal_id(path: &str) -> (r: DbResult<String>)
    ensures
        r is Ok <==> path::file_name_of(path@) is Some,
        r matches Ok(s) ==> path::file_name_of(path@) == Some(s@),
        r matches Err(e) ==> e.is_state("cannot get wal filename"@),
{
    match path::file_name(path) {
        Some(s) => Ok(s),
        None => Err(DbError::invalid_state("cannot get wal filename")),
    }
}

impl Clone for WalCmd {
    fn clone(&self) -> (r: Self)
        ensures
            r@ == self@,
    {
        match self {
            WalCmd::TxBegin(id) => WalCmd::TxBegin(*id),
            WalCmd::TxCommit(id) => WalCmd::TxCommit(*id),
            WalCmd::Op(id, k, v) => WalCmd::Op(*id, k.clone(), v.clone()),
            WalCmd::Batch(id, batch) => WalCmd::Batch(*id, clone_pairs(batch)),
        }
    }
}

/// A copy of pairs.
pub fn clone_pairs(batch: &Vec<(Key, Value)>) -> (r: Vec<(Key, Value)>)
    ensures
        r@ == batch@,
{
    let mut out: Vec<(Key, Value)> = Vec::new();
    let mut i: usize = 0;
    while i < batch.len()
        invariant
            i <= batch@.len(),
            out@ == batch@.take(i as int),
        decreases batch@.len() - i,
    {
        let (k, v) = &batch[i];
        out.push((k.clone(), v.clone()));
        i += 1;
        assert(out@ =~= batch@.take(i as int));
    }
    assert(out@ =~= batch@);
    out
}

fn same_pairs(a: &Vec<(Key, Value)>, b: &Vec<(Key, Value)>) -> (r: bool)
    ensures
        r == (scan_table::pairs(a@) == scan_table::pairs(b@)),
{
    let ghost (x, y) = (scan_table::pairs(a@), scan_table::pairs(b@));
    if a.len() != b.len() {
        assert(x.len() != y.len());
        return false;
    }
    let mut i: usize = 0;
    while i < a.len()
        invariant
            i <= a@.len() == b@.len(),
            x == scan_table::pairs(a@),
            y == scan_table::pairs(b@),
            forall|j: int| 0 <= j < i ==> x[j] == y[j],
        decreases a@.len() - i,
    {
        assert(x[i as int] == (a@[i as int].0@, a@[i as int].1@));
        assert(y[i as int] == (b@[i as int].0@, b@[i as int].1@));
        if !(a[i].0 == b[i].0 && a[i].1 == b[i].1) {
            return false;
        }
        i += 1;
    }
    assert(x =~= y);
    true
}

impl PartialEq for WalCmd {
    fn eq(&self, other: &Self) -> (r: bool) {
        match (self, other) {
            (WalCmd::TxBegin(a), WalCmd::TxBegin(b)) => *a == *b,
            (WalCmd::TxCommit(a), WalCmd::TxCommit(b)) => *a == *b,
            (WalCmd::Op(a, k, v), WalCmd::Op(b, l, w)) => *a == *b && *k == *l && *v == *w,
            (WalCmd::Batch(a, x), WalCmd::Batch(b, y)) => *a == *b && same_pairs(x, y),
            _ => false,
        }
    }
}

impl vstd::std_specs::cmp::PartialEqSpecImpl for WalCmd {
    open spec fn obeys_eq_spec() -> bool {
        true
    }

    open spec fn eq_spec(&self, other: &Self) -> bool {
        self@ == other@
    }
}

impl Eq for WalCmd {

}

/// A command can be written exactly when it has at most 65535 writes, and each key and
/// each text of theirs has at most 65535 bytes.
pub proof fn law_command_fits(c: CmdView)
    ensures
        c is TxBegin ==> c.fits(),
        c is TxCommit ==> c.fits(),
        c matches CmdView::Op(_, e) ==> (c.fits() <==> encode_utf8(e.0.user).len() <= 65535 && (
        e.1 matches ValueView::Put(s) ==> encode_utf8(s).len() <= 65535)),
        c matches CmdView::Batch(_, es) ==> (c.fits() <==> es.len() <= 65535 && (forall|i: int|
            0 <= i < es.len() ==> encode_utf8((#[trigger] es[i]).0.user).len() <= 65535 && (
            es[i].1 matches ValueView::Put(s) ==> encode_utf8(s).len() <= 65535))),
{
    if let CmdView::Batch(_, es) = c {
        if c.fits() {
            assert forall|i: int| 0 <= i < es.len() implies encode_utf8(
                (#[trigger] es[i]).0.user,
            ).len() <= 65535 && (es[i].1 matches ValueView::Put(s) ==> encode_utf8(s).len()
                <= 65535) by {
                assert(encode::entry_fits(es[i]));
            }
        }
    }
}

/// A record begins with a byte that tells its kind, and holds the number of its
/// transaction in eight bytes. A record of writes holds how many they are in two bytes
/// before that, and the writes behind it.
pub proof fn law_record_layout(c: CmdView)
    ensures
        match c {
            CmdView::TxBegin(id) => c.bytes() == seq![1u8] + encode::be(id as nat, 8),
            CmdView::TxCommit(id) => c.bytes() == seq![2u8] + encode::be(id as nat, 8),
            CmdView::Op(id, e) => c.bytes() == seq![3u8] + encode::be(id as nat, 8)
                + encode::entry_bytes(e),
            CmdView::Batch(id, es) => c.bytes() == seq![4u8] + encode::be(es.len(), 2)
                + encode::be(id as nat, 8) + layout::payload(es),
        },
{
}

/// A byte that begins no record is reported, and does not end the log.
pub proof fn law_unknown_record_is_reported(data: Seq<u8>, at: int)
    requires
        0 <= at < data.len(),
        !(1 <= data[at] <= 4),
    ensures
        record_at(data, at) == Record::Unknown(data[at]),
        commands(data, at) == (Seq::<CmdView>::empty(), Some(data[at])),
{
    reveal(commands);
}

/// A log goes on behind a record: its commands are that of the record and those behind.
pub proof fn law_log_goes_on(data: Seq<u8>, at: int)
    requires
        0 <= at,
    ensures
        record_at(data, at) matches Record::Cmd(c, end) ==> commands(data, at) == (
            seq![c] + commands(data, end).0,
            commands(data, end).1,
        ),
        record_at(data, at) is End ==> commands(data, at) == (Seq::<CmdView>::empty(), None::<u8>),
{
    reveal(commands);
    lemma_record_end(data, at);
}

} // verus!
