//! The logs of the tables in memory: their numbers, and making the tables again
//! from them.

use std::collections::HashMap;

use vstd::prelude::*;
use vstd::string::*;

use crate::common::error::{DbError, DbResult, Fault};
use crate::common::key::{Key, KeyView};
use crate::common::path;
use crate::common::sort;
use crate::common::sort::sorted_ids;
use crate::common::text;
use crate::common::value::{Value, ValueView};
use crate::common::versions;
use crate::common::versions::Entry;
use crate::memtable::list::{node, MAX_HEIGHT};
use crate::memtable::MemTable;
use crate::sstable::layout;
use crate::sstable::scan::table as scan_table;
use crate::storage::layers;
use crate::wal;
use crate::wal::reader;
use crate::wal::{CmdView, WalCmd};
use crate::wal::reader::WalReader;
use crate::wal::writer::WalWriter;

verus! {

/// The directory of the logs.
pub const WAL_DIR: &'static str = "wal";

/// What the logs gave back.
pub struct Restored {
    /// The tables, in the order of the logs.
    pub tables: Vec<MemTable>,
    /// The highest sequence number in the logs.
    pub max_seq: u64,
    /// The highest number of a committed transaction.
    pub max_tx_id: u64,
}

/// The mathematical content of [`Restored`].
pub struct RestoredView {
    /// The number and the versions of each table.
    pub tables: Seq<(u64, Map<KeyView, ValueView>)>,
    /// The highest sequence number in the logs.
    pub max_seq: u64,
    /// The highest number of a committed transaction.
    pub max_tx_id: u64,
}

impl View for Restored {
    type V = RestoredView;

    open spec fn view(&self) -> RestoredView {
        RestoredView {
            tables: Seq::new(
                self.tables@.len(),
                |i: int| (self.tables@[i].number(), self.tables@[i]@),
            ),
            max_seq: self.max_seq,
            max_tx_id: self.max_tx_id,
        }
    }
}

impl Restored {
    /// The tables are in good order.
    pub open spec fn wf(&self) -> bool {
        forall|i: int| 0 <= i < self.tables@.len() ==> (#[trigger] self.tables@[i]).wf()
    }
}

/// Versions with one more, unless it is there already.
pub open spec fn put(m: Map<KeyView, ValueView>, e: Entry) -> Map<KeyView, ValueView> {
    if m.contains_key(e.0) {
        m
    } else {
        m.insert(e.0, e.1)
    }
}

/// Versions with more, but for those that are there already.
pub open spec fn put_all(m: Map<KeyView, ValueView>, es: Seq<Entry>) -> Map<KeyView, ValueView>
    decreases es.len(),
{
    if es.len() == 0 {
        m
    } else {
        put(put_all(m, es.drop_last()), es.last())
    }
}

/// What the bytes of a table with the versions `m` grow to when versions are added to
/// it: in the arithmetic of machine words, and as a number. Each version that is not
/// there yet takes a node of its height.
pub open spec fn grown(
    m: Map<KeyView, ValueView>,
    from: (usize, nat),
    es: Seq<Entry>,
    heights: Seq<nat>,
) -> (usize, nat)
    decreases es.len(),
{
    if es.len() == 0 {
        from
    } else {
        let before = grown(m, from, es.drop_last(), heights.drop_last());
        let (e, height) = (es.last(), heights.last());
        if put_all(m, es.drop_last()).contains_key(e.0) {
            before
        } else {
            (
                before.0.wrapping_add(node::node_size(e.0, e.1, height)),
                before.1 + node::node_bytes(e.0, e.1, height),
            )
        }
    }
}

/// Whether these are heights of `n` nodes.
pub open spec fn are_heights(heights: Seq<nat>, n: nat) -> bool {
    &&& heights.len() == n
    &&& forall|i: int| 0 <= i < n ==> 1 <= #[trigger] heights[i] <= MAX_HEIGHT
}

/// Whether `b` is the table `a` with versions added, but for those that are there
/// already.
pub open spec fn took(a: MemTable, b: MemTable, es: Seq<Entry>) -> bool {
    &&& b.number() == a.number()
    &&& b.limit() == a.limit()
    &&& b@ == put_all(a@, es)
    &&& exists|heights: Seq<nat>|
        are_heights(heights, es.len()) && (b.usage(), b.bytes()) == #[trigger] grown(
            a@,
            (a.usage(), a.bytes()),
            es,
            heights,
        )
}

/// A table takes nothing.
pub proof fn lemma_took_none(a: MemTable)
    ensures
        took(a, a, Seq::empty()),
{
    assert(are_heights(Seq::<nat>::empty(), 0));
    assert((a.usage(), a.bytes()) == grown(
        a@,
        (a.usage(), a.bytes()),
        Seq::empty(),
        Seq::<nat>::empty(),
    ));
}

/// A table that took versions takes one more, if that is not there yet in a node of
/// this height.
pub proof fn lemma_took_push(a: MemTable, b: MemTable, c: MemTable, es: Seq<Entry>, height: nat)
    requires
        es.len() > 0,
        took(a, b, es.drop_last()),
        c.number() == b.number(),
        c.limit() == b.limit(),
        c@ == put(b@, es.last()),
        1 <= height <= MAX_HEIGHT,
        b@.contains_key(es.last().0) ==> c.usage() == b.usage() && c.bytes() == b.bytes(),
        !b@.contains_key(es.last().0) ==> c.usage() == b.usage().wrapping_add(
            node::node_size(es.last().0, es.last().1, height),
        ) && c.bytes() == b.bytes() + node::node_bytes(es.last().0, es.last().1, height),
    ensures
        took(a, c, es),
{
    let before = es.drop_last();
    let from = (a.usage(), a.bytes());
    let hs = choose|hs: Seq<nat>|
        are_heights(hs, before.len()) && (b.usage(), b.bytes()) == #[trigger] grown(
            a@,
            from,
            before,
            hs,
        );
    let all = hs.push(height);
    assert(all.drop_last() =~= hs);
    assert forall|i: int| 0 <= i < es.len() implies 1 <= #[trigger] all[i] <= MAX_HEIGHT by {
        if i < hs.len() {
            assert(all[i] == hs[i]);
        }
    }
    assert(are_heights(all, es.len()));
    assert((c.usage(), c.bytes()) == grown(a@, from, es, all));
}

/// The larger of two numbers.
pub open spec fn larger(a: u64, b: u64) -> u64 {
    if a >= b {
        a
    } else {
        b
    }
}

/// The highest sequence number of `seq` and of entries.
pub open spec fn highest(seq: u64, es: Seq<Entry>) -> u64
    decreases es.len(),
{
    if es.len() == 0 {
        seq
    } else {
        larger(highest(seq, es.drop_last()), es.last().0.seq)
    }
}

/// How far a log has been replayed.
pub struct Replay {
    /// The versions of committed transactions.
    pub table: Map<KeyView, ValueView>,
    /// The versions of each transaction that has begun and is not committed.
    pub open: Map<u64, Map<KeyView, ValueView>>,
    /// The highest sequence number so far.
    pub max_seq: u64,
    /// The highest number of a committed transaction so far.
    pub max_tx_id: u64,
}

/// The message for a transaction that begins twice.
pub open spec fn duplicate_message(tx_id: u64) -> Seq<char> {
    "corrupted WAL; duplicate transaction id: '"@ + text::decimal_text(tx_id as nat) + "'"@
}

/// The message for the commit of a transaction that has not begun.
pub open spec fn unknown_commit_message(tx_id: u64) -> Seq<char> {
    "corrupted WAL; unknown transaction commit: '"@ + text::decimal_text(tx_id as nat) + "'"@
}

impl Replay {
    /// A replay that has not begun.
    pub open spec fn start(max_seq: u64, max_tx_id: u64) -> Replay {
        Replay { table: Map::empty(), open: Map::empty(), max_seq, max_tx_id }
    }

    /// The replay after writes of a transaction. Those of a transaction that has
    /// not begun are only counted.
    pub open spec fn wrote(self, tx_id: u64, es: Seq<Entry>) -> Replay {
        Replay {
            open: if self.open.contains_key(tx_id) {
                self.open.insert(tx_id, put_all(self.open[tx_id], es))
            } else {
                self.open
            },
            max_seq: highest(self.max_seq, es),
            ..self
        }
    }

    /// The replay after a command.
    pub open spec fn step(self, c: CmdView) -> Result<Replay, Fault> {
        match c {
            CmdView::TxBegin(id) => if self.open.contains_key(id) {
                Err(Fault::State(duplicate_message(id)))
            } else {
                Ok(Replay { open: self.open.insert(id, Map::empty()), ..self })
            },
            CmdView::TxCommit(id) => if self.open.contains_key(id) {
                Ok(
                    Replay {
                        table: self.open[id].union_prefer_right(self.table),
                        open: self.open.remove(id),
                        max_tx_id: larger(self.max_tx_id, id),
                        ..self
                    },
                )
            } else {
                Err(Fault::State(unknown_commit_message(id)))
            },
            CmdView::Op(id, e) => Ok(self.wrote(id, seq![e])),
            CmdView::Batch(id, es) => Ok(self.wrote(id, es)),
        }
    }

    /// The replay after commands.
    pub open spec fn run(self, cs: Seq<CmdView>) -> Result<Replay, Fault>
        decreases cs.len(),
    {
        if cs.len() == 0 {
            Ok(self)
        } else {
            match self.run(cs.drop_last()) {
                Err(f) => Err(f),
                Ok(r) => r.step(cs.last()),
            }
        }
    }

    /// The replay of the log `data`, from its beginning.
    pub open spec fn of_log(self, data: Seq<u8>) -> Result<Replay, Fault> {
        let (cs, bad) = wal::commands(data, 0);
        match self.run(cs) {
            Err(f) => Err(f),
            Ok(r) => match bad {
                Some(b) => Err(Fault::State(reader::unknown_message(b))),
                None => Ok(r),
            },
        }
    }
}

/// Why logs cannot be replayed.
pub enum Trouble {
    /// The name of a log is no number.
    Name,
    /// A log is inconsistent.
    Log(Fault),
}

/// What logs give back: for each its name and its records.
pub open spec fn restored(logs: Seq<(Seq<char>, Seq<u8>)>) -> Result<RestoredView, Trouble>
    decreases logs.len(),
{
    if logs.len() == 0 {
        Ok(RestoredView { tables: Seq::empty(), max_seq: 0, max_tx_id: 0 })
    } else {
        match restored(logs.drop_last()) {
            Err(t) => Err(t),
            Ok(v) => match text::parsed_number(logs.last().0, u64::MAX as nat) {
                None => Err(Trouble::Name),
                Some(id) => match Replay::start(v.max_seq, v.max_tx_id).of_log(logs.last().1) {
                    Err(f) => Err(Trouble::Log(f)),
                    Ok(r) => Ok(
                        RestoredView {
                            tables: v.tables.push((id as u64, r.table)),
                            max_seq: r.max_seq,
                            max_tx_id: r.max_tx_id,
                        },
                    ),
                },
            },
        }
    }
}

/// The names and records of logs.
pub open spec fn logs_of(wals: Seq<WalReader>) -> Seq<(Seq<char>, Seq<u8>)> {
    Seq::new(wals.len(), |i: int| (wals[i].name(), wals[i].log()))
}

/// Whether `e` reports the trouble `t`.
pub open spec fn reports(e: DbError, t: Trouble) -> bool {
    match t {
        Trouble::Name => e is InvalidValue,
        Trouble::Log(f) => e.reports(f),
    }
}

fn quoted(front: &str, tx_id: u64) -> (s: String)
    ensures
        s@ == front@ + text::decimal_text(tx_id as nat) + "'"@,
{
    let mut s = front.to_owned();
    let shown = text::decimal(tx_id);
    s.append(shown.as_str());
    s.append("'");
    s
}

/// Trouble among the first logs is trouble among all.
proof fn lemma_restored_early(logs: Seq<(Seq<char>, Seq<u8>)>, n: int)
    requires
        0 <= n <= logs.len(),
        restored(logs.take(n)) is Err,
    ensures
        restored(logs) == restored(logs.take(n)),
    decreases logs.len() - n,
{
    if n < logs.len() {
        assert(logs.take(n + 1).drop_last() =~= logs.take(n));
        lemma_restored_early(logs, n + 1);
    } else {
        assert(logs.take(n) =~= logs);
    }
}

/// A fault among the first commands is a fault among all.
proof fn lemma_run_early(r: Replay, cs: Seq<CmdView>, n: int)
    requires
        0 <= n <= cs.len(),
        r.run(cs.take(n)) is Err,
    ensures
        r.run(cs) == r.run(cs.take(n)),
    decreases cs.len() - n,
{
    if n < cs.len() {
        assert(cs.take(n + 1).drop_last() =~= cs.take(n));
        lemma_run_early(r, cs, n + 1);
    } else {
        assert(cs.take(n) =~= cs);
    }
}

/// Replays commands and those behind them.
pub proof fn lemma_run_join(r: Replay, a: Seq<CmdView>, b: Seq<CmdView>)
    requires
        r.run(a) is Ok,
    ensures
        r.run(a + b) == r.run(a)->Ok_0.run(b),
    decreases b.len(),
{
    if b.len() == 0 {
        assert(a + b =~= a);
    } else {
        assert((a + b).drop_last() =~= a + b.drop_last());
        lemma_run_join(r, a, b.drop_last());
    }
}

/// Adds entries to a table. Returns the highest sequence number of theirs and
/// `max_seq`.
pub fn put_entries(table: &mut MemTable, batch: Vec<(Key, Value)>, max_seq: u64) -> (r: u64)
    requires
        old(table).wf(),
    ensures
        final(table).wf(),
        took(*old(table), *final(table), scan_table::pairs(batch@)),
        r == highest(max_seq, scan_table::pairs(batch@)),
{
    let ghost es = scan_table::pairs(batch@);
    let mut max: u64 = max_seq;
    let mut i: usize = 0;
    assert(es.take(0) =~= Seq::<Entry>::empty());
    proof {
        lemma_took_none(*table);
    }
    while i < batch.len()
        invariant
            i <= batch@.len(),
            es == scan_table::pairs(batch@),
            table.wf(),
            took(*old(table), *table, es.take(i as int)),
            max == highest(max_seq, es.take(i as int)),
        decreases batch@.len() - i,
    {
        let (key, value) = &batch[i];
        assert(es[i as int] == (key@, value@));
        assert(es.take(i + 1).drop_last() =~= es.take(i as int));
        if key.1 > max {
            max = key.1;
        }
        let ghost before = *table;
        table.put(key.clone(), value.clone());
        proof {
            let e = es[i as int];
            let height = if before@.contains_key(e.0) {
                1
            } else {
                choose|height: nat|
                    1 <= height <= MAX_HEIGHT && table.usage() == before.usage().wrapping_add(
                        #[trigger] node::node_size(e.0, e.1, height),
                    ) && table.bytes() == before.bytes() + node::node_bytes(e.0, e.1, height)
            };
            lemma_took_push(*old(table), before, *table, es.take(i + 1), height);
        }
        i += 1;
    }
    assert(es.take(i as int) =~= es);
    max
}

/// The highest sequence number of `seq` and of a batch.
fn count_entries(batch: &Vec<(Key, Value)>, max_seq: u64) -> (r: u64)
    ensures
        r == highest(max_seq, scan_table::pairs(batch@)),
{
    let ghost es = scan_table::pairs(batch@);
    let mut max: u64 = max_seq;
    let mut i: usize = 0;
    assert(es.take(0) =~= Seq::<Entry>::empty());
    while i < batch.len()
        invariant
            i <= batch@.len(),
            es == scan_table::pairs(batch@),
            max == highest(max_seq, es.take(i as int)),
        decreases batch@.len() - i,
    {
        assert(es[i as int].0 == batch@[i as int].0@);
        assert(es.take(i + 1).drop_last() =~= es.take(i as int));
        if batch[i].0.1 > max {
            max = batch[i].0.1;
        }
        i += 1;
    }
    assert(es.take(i as int) =~= es);
    max
}

/// Adds the versions of one table to another, but for those it has already.
fn put_table(table: &mut MemTable, values: &MemTable)
    requires
        old(table).wf(),
        values.wf(),
    ensures
        final(table).wf(),
        final(table).number() == old(table).number(),
        final(table).limit() == old(table).limit(),
        final(table)@ == values@.union_prefer_right(old(table)@),
{
    let ghost es = values.entries();
    proof {
        values.lemma_entries();
    }
    let mut it = values.iter();
    let ghost mut n: int = 0;
    assert(es.skip(0) =~= es);
    assert(es.take(0) =~= Seq::<Entry>::empty());
    assert(versions::map_of(es.take(0)).union_prefer_right(table@) =~= table@);
    loop
        invariant
            it.wf(),
            0 <= n <= es.len(),
            it.rest() == es.skip(n),
            versions::sorted(es),
            table.wf(),
            table.number() == old(table).number(),
            table.limit() == old(table).limit(),
            table@ == versions::map_of(es.take(n)).union_prefer_right(old(table)@),
        ensures
            n == es.len(),
            table.wf(),
            table.number() == old(table).number(),
            table.limit() == old(table).limit(),
            table@ == versions::map_of(es.take(n)).union_prefer_right(old(table)@),
        decreases es.len() - n,
    {
        let ghost before = table@;
        match it.next() {
            None => {
                break;
            },
            Some((k, v)) => {
                assert((k@, v@) == es[n]);
                table.put(k.clone(), v.clone());
                proof {
                    lemma_prefix_step(es, n);
                    assert(table@ =~= versions::map_of(es.take(n + 1)).union_prefer_right(
                        old(table)@,
                    ));
                    assert(es.skip(n).drop_first() =~= es.skip(n + 1));
                    n = n + 1;
                }
            },
        }
    }
    assert(es.take(n) =~= es);
}

/// One more entry of sorted entries is one more version.
proof fn lemma_prefix_step(es: Seq<Entry>, n: int)
    requires
        versions::sorted(es),
        0 <= n < es.len(),
    ensures
        !versions::map_of(es.take(n)).contains_key(es[n].0),
        versions::map_of(es.take(n + 1)) == versions::map_of(es.take(n)).insert(es[n].0, es[n].1),
{
    let a = es.take(n);
    assert(versions::sorted(a)) by {
        assert forall|i: int, j: int| 0 <= i < j < a.len() implies (#[trigger] a[i]).0.lt(
            (#[trigger] a[j]).0,
        ) by {
            assert(es[i].0.lt(es[j].0));
        }
    }
    assert(versions::stands_at(a, es[n].0, n)) by {
        assert forall|i: int| 0 <= i < n implies (#[trigger] a[i]).0.lt(es[n].0) by {
            assert(es[i].0.lt(es[n].0));
        }
    }
    versions::lemma_map_of_keys(a);
    if versions::has_key(a, es[n].0) {
        let x = choose|x: int| 0 <= x < a.len() && (#[trigger] a[x]).0 == es[n].0;
        assert(a[x].0.lt(es[n].0));
        crate::common::key::lemma_key_irreflexive(es[n].0);
    }
    versions::lemma_insert_sorted(a, n, es[n]);
    assert(a.insert(n, es[n]) =~= es.take(n + 1));
}

/// Whether the transactions that are open in the replay are those in `txs`.
spec fn same_open(
    txs: Map<u64, MemTable>,
    open: Map<u64, Map<KeyView, ValueView>>,
) -> bool {
    &&& txs.dom() =~= open.dom()
    &&& forall|id: u64|
        txs.contains_key(id) ==> (#[trigger] txs[id]).wf() && txs[id]@ == open[id]
}

/// Replays one log into a table.
fn restore_table(reader: &mut WalReader, id: u64, max_seq: u64, max_tx_id: u64) -> (r: DbResult<
    (MemTable, u64, u64),
>)
    requires
        old(reader).wf(),
        old(reader).at() == 0,
    ensures
        final(reader).log() == old(reader).log(),
        final(reader).name() == old(reader).name(),
        match Replay::start(max_seq, max_tx_id).of_log(old(reader).log()) {
            Ok(v) => r matches Ok((table, seq, tx)) && {
                &&& table.wf()
                &&& table.number() == id
                &&& table@ == v.table
                &&& seq == v.max_seq
                &&& tx == v.max_tx_id
            },
            Err(f) => r matches Err(e) && e.reports(f),
        },
{
    broadcast use vstd::std_specs::hash::group_hash_axioms;

    let ghost data = reader.log();
    let ghost start = Replay::start(max_seq, max_tx_id);
    let ghost (all, bad) = wal::commands(data, 0);
    let mut table = MemTable::new(id);
    let mut txs: HashMap<u64, MemTable> = HashMap::new();
    let mut seq: u64 = max_seq;
    let mut tx: u64 = max_tx_id;
    let ghost mut n: int = 0;
    let ghost mut v: Replay = start;
    assert(all.skip(0) =~= all);
    assert(all.take(0) =~= Seq::<CmdView>::empty());
    loop
        invariant
            reader.wf(),
            reader.log() == data,
            reader.name() == old(reader).name(),
            reader.at() >= 0,
            wal::commands(data, 0) == (all, bad),
            0 <= n <= all.len(),
            wal::commands(data, reader.at()) == (all.skip(n), bad),
            start.run(all.take(n)) == Ok::<Replay, Fault>(v),
            table.wf(),
            table.number() == id,
            table@ == v.table,
            same_open(txs@, v.open),
            seq == v.max_seq,
            tx == v.max_tx_id,
            start == Replay::start(max_seq, max_tx_id),
            data == old(reader).log(),
        ensures
            reader.log() == data,
            reader.name() == old(reader).name(),
            table.wf(),
            table.number() == id,
            table@ == v.table,
            seq == v.max_seq,
            tx == v.max_tx_id,
            start.of_log(data) == Ok::<Replay, Fault>(v),
        decreases all.len() - n,
    {
        reveal(wal::commands);
        let ghost at = reader.at();
        let cmd = match reader.next() {
            Err(e) => {
                assert(all.skip(n) =~= Seq::<CmdView>::empty());
                assert(all.take(n) =~= all);
                return Err(e);
            },
            Ok(None) => {
                assert(all.skip(n) =~= Seq::<CmdView>::empty());
                assert(all.take(n) =~= all);
                break;
            },
            Ok(Some(cmd)) => cmd,
        };
        let ghost c = cmd@;
        proof {
            wal::lemma_record_end(data, at);
            assert(all.skip(n) == seq![c] + wal::commands(data, reader.at()).0);
            assert(all.skip(n)[0] == c);
            assert(all[n] == c);
            assert(all.skip(n + 1) =~= all.skip(n).drop_first());
            assert(all.skip(n).drop_first() =~= wal::commands(data, reader.at()).0);
            assert(all.take(n + 1).drop_last() =~= all.take(n));
            assert(start.run(all.take(n + 1)) == v.step(c));
            if v.step(c) is Err {
                lemma_run_early(start, all, n + 1);
            }
        }
        match cmd {
            WalCmd::TxBegin(tx_id) => {
                let fresh = MemTable::new(0);
                if txs.contains_key(&tx_id) {
                    return Err(
                        DbError::InvalidState(
                            quoted("corrupted WAL; duplicate transaction id: '", tx_id),
                        ),
                    );
                }
                txs.insert(tx_id, fresh);
            },
            WalCmd::TxCommit(tx_id) => {
                match txs.remove(&tx_id) {
                    None => {
                        return Err(
                            DbError::InvalidState(
                                quoted("corrupted WAL; unknown transaction commit: '", tx_id),
                            ),
                        );
                    },
                    Some(values) => {
                        put_table(&mut table, &values);
                        if tx_id > tx {
                            tx = tx_id;
                        }
                    },
                }
            },
            WalCmd::Op(tx_id, key, value) => {
                let ghost es = seq![(key@, value@)];
                let mut batch: Vec<(Key, Value)> = Vec::new();
                batch.push((key, value));
                assert(scan_table::pairs(batch@) =~= es);
                match txs.remove(&tx_id) {
                    None => {
                        seq = count_entries(&batch, seq);
                    },
                    Some(values) => {
                        let mut values: MemTable = values;
                        seq = put_entries(&mut values, batch, seq);
                        txs.insert(tx_id, values);
                    },
                }
            },
            WalCmd::Batch(tx_id, batch) => {
                match txs.remove(&tx_id) {
                    None => {
                        seq = count_entries(&batch, seq);
                    },
                    Some(values) => {
                        let mut values: MemTable = values;
                        seq = put_entries(&mut values, batch, seq);
                        txs.insert(tx_id, values);
                    },
                }
            },
        }
        proof {
            v = v.step(c)->Ok_0;
            n = n + 1;
        }
    }
    Ok((table, seq, tx))
}

/// Replays logs into tables, one for each.
pub fn restore_tables(wals: Vec<WalReader>) -> (r: DbResult<Restored>)
    requires
        forall|i: int|
            0 <= i < wals@.len() ==> (#[trigger] wals@[i]).wf() && wals@[i].at() == 0,
    ensures
        match restored(logs_of(wals@)) {
            Ok(v) => r matches Ok(x) && x.wf() && x@ == v,
            Err(t) => r matches Err(e) && reports(e, t),
        },
{
    let ghost logs = logs_of(wals@);
    let mut left = wals;
    let mut out = Restored { tables: Vec::new(), max_seq: 0, max_tx_id: 0 };
    let mut i: usize = 0;
    assert(logs.take(0) =~= Seq::<(Seq<char>, Seq<u8>)>::empty());
    assert(out@.tables =~= Seq::<(u64, Map<KeyView, ValueView>)>::empty());
    while i < left.len()
        invariant
            i <= left@.len() == logs.len(),
            left@.len() == wals@.len(),
            logs == logs_of(wals@),
            forall|j: int| i <= j < left@.len() ==> #[trigger] left@[j] == wals@[j],
            forall|j: int|
                0 <= j < wals@.len() ==> (#[trigger] wals@[j]).wf() && wals@[j].at() == 0,
            out.wf(),
            restored(logs.take(i as int)) == Ok::<RestoredView, Trouble>(out@),
        decreases left@.len() - i,
    {
        let ghost before = out@;
        assert(logs.take(i + 1).drop_last() =~= logs.take(i as int));
        assert(left@[i as int] == wals@[i as int]);
        assert(logs[i as int] == (left@[i as int].name(), left@[i as int].log()));
        let id: u64 = match text::parse_u64(left[i].id()) {
            Ok(id) => id,
            Err(e) => {
                proof {
                    lemma_restored_early(logs, i + 1);
                }
                return Err(DbError::from(e));
            },
        };
        match restore_table(&mut left[i], id, out.max_seq, out.max_tx_id) {
            Err(e) => {
                proof {
                    lemma_restored_early(logs, i + 1);
                }
                return Err(e);
            },
            Ok((table, max_seq, max_tx_id)) => {
                out.tables.push(table);
                out.max_seq = max_seq;
                out.max_tx_id = max_tx_id;
                assert(out@.tables =~= before.tables.push((id, table@)));
            },
        }
        i += 1;
    }
    assert(logs.take(i as int) =~= logs);
    Ok(out)
}

/// The contents of names.
pub open spec fn texts(names: Seq<String>) -> Seq<Seq<char>> {
    Seq::new(names.len(), |i: int| names[i]@)
}

/// The numbers among names, in their order.
pub open spec fn parsed_ids(names: Seq<Seq<char>>) -> Seq<u64>
    decreases names.len(),
{
    if names.len() == 0 {
        Seq::empty()
    } else {
        let rest = parsed_ids(names.drop_last());
        match text::parsed_number(names.last(), u64::MAX as nat) {
            Some(n) => rest.push(n as u64),
            None => rest,
        }
    }
}

/// Whether `r` is the highest of the numbers, or zero when there are none.
pub open spec fn is_latest(ids: Seq<u64>, r: u64) -> bool {
    if ids.len() == 0 {
        r == 0
    } else {
        &&& ids.contains(r)
        &&& forall|x: u64| #[trigger] ids.contains(x) ==> x <= r
    }
}

/// The numbers of the logs in a directory with these files, ascending. Files
/// whose name is no number are no logs.
pub fn wal_ids(names: &Vec<String>) -> (r: Vec<u64>)
    ensures
        sort::ordered(r@),
        r@.to_multiset() == parsed_ids(texts(names@)).to_multiset(),
        r@.len() == parsed_ids(texts(names@)).len(),
        forall|x: u64| r@.contains(x) <==> parsed_ids(texts(names@)).contains(x),
{
    let ghost all = texts(names@);
    let mut ids: Vec<u64> = Vec::new();
    let mut i: usize = 0;
    assert(all.take(0) =~= Seq::<Seq<char>>::empty());
    while i < names.len()
        invariant
            i <= names@.len(),
            all == texts(names@),
            ids@ == parsed_ids(all.take(i as int)),
        decreases names@.len() - i,
    {
        assert(all.take(i + 1).drop_last() =~= all.take(i as int));
        assert(all[i as int] == names@[i as int]@);
        match text::parse_decimal(names[i].as_str(), u64::MAX) {
            Some(id) => {
                ids.push(id);
            },
            None => {},
        }
        i += 1;
    }
    assert(all.take(i as int) =~= all);
    sorted_ids(&ids)
}

/// The number of the latest log in a directory with these files, or zero.
pub fn latest_id(names: &Vec<String>) -> (r: u64)
    ensures
        is_latest(parsed_ids(texts(names@)), r),
{
    let ids = wal_ids(names);
    if ids.len() == 0 {
        return 0;
    }
    let r: u64 = ids[ids.len() - 1];
    assert(ids@.contains(r)) by {
        assert(ids@[ids@.len() - 1] == r);
    }
    assert forall|x: u64| #[trigger] parsed_ids(texts(names@)).contains(x) implies x <= r by {
        assert(ids@.contains(x));
        let j = choose|j: int| 0 <= j < ids@.len() && ids@[j] == x;
        assert(ids@[j] <= ids@[ids@.len() - 1]);
    }
    r
}

/// Gives out the logs of a directory.
pub struct Wal {
    path: String,
    id: u64,
}

impl Wal {
    /// The directory of the logs.
    pub closed spec fn dir(&self) -> Seq<char> {
        self.path@
    }

    /// The number of the next log.
    pub closed spec fn next_id(&self) -> u64 {
        self.id
    }

    /// The logs under `dir`, in whose log directory there are files with these
    /// names.
    pub fn new(dir: &str, names: &Vec<String>) -> (r: DbResult<Self>)
        ensures
            match r {
                Ok(w) => {
                    &&& w.dir() == path::joined(dir@, WAL_DIR@)
                    &&& w.next_id() > 0
                    &&& is_latest(parsed_ids(texts(names@)), (w.next_id() - 1) as u64)
                },
                Err(e) => {
                    &&& parsed_ids(texts(names@)).contains(u64::MAX)
                    &&& e.is_state("log numbers are used up"@)
                },
            },
            parsed_ids(texts(names@)).contains(u64::MAX) ==> r is Err,
            r matches Ok(w) ==> forall|x: u64| #[trigger]
                parsed_ids(texts(names@)).contains(x) ==> x < w.next_id(),
    {
        let latest: u64 = latest_id(names);
        if latest == u64::MAX {
            return Err(DbError::invalid_state("log numbers are used up"));
        }
        Ok(Self { path: path::join(dir, WAL_DIR), id: latest + 1 })
    }

    /// Makes the tables in memory again from logs.
    pub fn restore(&self, wals: Vec<WalReader>) -> (r: DbResult<Restored>)
        requires
            forall|i: int|
                0 <= i < wals@.len() ==> (#[trigger] wals@[i]).wf() && wals@[i].at() == 0,
        ensures
            match restored(logs_of(wals@)) {
                Ok(v) => r matches Ok(x) && x.wf() && x@ == v,
                Err(t) => r matches Err(e) && reports(e, t),
            },
    {
        restore_tables(wals)
    }

    /// Starts the next log.
    pub fn new_writer(&mut self) -> (r: DbResult<WalWriter>)
        requires
            old(self).next_id() < u64::MAX,
        ensures
            final(self).dir() == old(self).dir(),
            final(self).next_id() == old(self).next_id() + 1,
            r matches Ok(w) && {
                &&& w.name() == text::decimal_text(old(self).next_id() as nat)
                &&& w.log() == Seq::<u8>::empty()
                &&& w.unwritten() == Seq::<u8>::empty()
            },
    {
        let id: u64 = self.id;
        self.id = id + 1;
        let file = self.file(id);
        proof {
            text::lemma_decimal_plain(id as nat);
            path::lemma_joined_name(self.path@, text::decimal_text(id as nat));
        }
        WalWriter::open(file.as_str())
    }

    /// The directory of the logs.
    pub fn dir_path(&self) -> (r: &str)
        ensures
            r@ == self.dir(),
    {
        self.path.as_str()
    }

    /// Whether there is a number left for another log.
    pub fn has_room(&self) -> (r: bool)
        ensures
            r == (self.next_id() < u64::MAX),
    {
        self.id < u64::MAX
    }

    /// Where the log with this number is.
    pub fn file(&self, id: u64) -> (r: String)
        ensures
            r@ == path::joined(self.dir(), text::decimal_text(id as nat)),
    {
        let name = text::decimal(id);
        path::join(self.path.as_str(), name.as_str())
    }

    /// The numbers of the logs in a directory with these files in the order in
    /// which they are replayed: the newest first.
    pub fn replay_order(names: &Vec<String>) -> (r: Vec<u64>)
        ensures
            r@.to_multiset() == parsed_ids(texts(names@)).to_multiset(),
            forall|i: int, j: int| 0 <= i < j < r@.len() ==> r@[i] >= r@[j],
    {
        let ids = wal_ids(names);
        let mut r: Vec<u64> = Vec::new();
        let mut i: usize = ids.len();
        while i > 0
            invariant
                i <= ids@.len(),
                r@.len() == ids@.len() - i,
                forall|j: int| 0 <= j < r@.len() ==> r@[j] == ids@[ids@.len() - 1 - j],
            decreases i,
        {
            i -= 1;
            r.push(ids[i]);
        }
        assert(r@ =~= ids@.reverse());
        proof {
            ids@.lemma_reverse_to_multiset();
            assert forall|i: int, j: int| 0 <= i < j < r@.len() implies r@[i] >= r@[j] by {
                assert(ids@[ids@.len() - 1 - j] <= ids@[ids@.len() - 1 - i]);
            }
        }
        r
    }
}

/// What a log holds of a transaction: its number, and its writes if they were
/// committed. Of a transaction whose writes could not be logged it holds only the
/// beginning.
pub type Batch = (u64, Option<Seq<Entry>>);

/// The commands that log batches.
pub open spec fn batch_cmds(bs: Seq<Batch>) -> Seq<CmdView>
    decreases bs.len(),
{
    if bs.len() == 0 {
        Seq::empty()
    } else {
        batch_cmds(bs.drop_last()) + one_batch(bs.last())
    }
}

/// The commands that log one batch.
pub open spec fn one_batch(b: Batch) -> Seq<CmdView> {
    match b.1 {
        Some(es) => seq![CmdView::TxBegin(b.0), CmdView::Batch(b.0, es), CmdView::TxCommit(b.0)],
        None => seq![CmdView::TxBegin(b.0)],
    }
}

/// The writes of one batch.
pub open spec fn one_entries(b: Batch) -> Seq<Entry> {
    match b.1 {
        Some(es) => es,
        None => Seq::empty(),
    }
}

/// The writes of batches.
pub open spec fn batch_entries(bs: Seq<Batch>) -> Seq<Entry>
    decreases bs.len(),
{
    if bs.len() == 0 {
        Seq::empty()
    } else {
        batch_entries(bs.drop_last()) + one_entries(bs.last())
    }
}

/// The highest number of `tx` and of the transactions that were committed.
pub open spec fn highest_tx(tx: u64, bs: Seq<Batch>) -> u64
    decreases bs.len(),
{
    if bs.len() == 0 {
        tx
    } else if bs.last().1 is Some {
        larger(highest_tx(tx, bs.drop_last()), bs.last().0)
    } else {
        highest_tx(tx, bs.drop_last())
    }
}

/// The transactions that have begun and are not committed.
pub open spec fn strays(bs: Seq<Batch>) -> Map<u64, Map<KeyView, ValueView>>
    decreases bs.len(),
{
    if bs.len() == 0 {
        Map::empty()
    } else if bs.last().1 is Some {
        strays(bs.drop_last())
    } else {
        strays(bs.drop_last()).insert(bs.last().0, Map::empty())
    }
}

/// Whether no transaction with this number has begun without being committed.
pub open spec fn fresh(bs: Seq<Batch>, tx_id: u64) -> bool {
    forall|i: int| 0 <= i < bs.len() && (#[trigger] bs[i]).1 is None ==> bs[i].0 != tx_id
}

/// Whether all transactions that were not committed are below `tx_id`.
pub open spec fn strays_below(bs: Seq<Batch>, tx_id: u64) -> bool {
    forall|i: int| 0 <= i < bs.len() && (#[trigger] bs[i]).1 is None ==> bs[i].0 < tx_id
}

/// Transactions that are numbered one after the other do not meet.
pub proof fn law_numbers_are_fresh(bs: Seq<Batch>, tx_id: u64, es: Option<Seq<Entry>>)
    requires
        strays_below(bs, tx_id),
        tx_id < u64::MAX,
    ensures
        fresh(bs, tx_id),
        strays_below(bs.push((tx_id, es)), (tx_id + 1) as u64),
{
    let ns = bs.push((tx_id, es));
    assert forall|i: int| 0 <= i < ns.len() && (#[trigger] ns[i]).1 is None implies ns[i].0
        < tx_id + 1 by {
        if i < bs.len() {
            assert(ns[i] == bs[i]);
        }
    }
}

/// Whether all batches can be logged, and no transaction begins twice.
pub open spec fn batches_fit(bs: Seq<Batch>) -> bool {
    &&& forall|i: int|
        0 <= i < bs.len() ==> one_entries(#[trigger] bs[i]).len() <= u16::MAX && wal::all_fit(
            one_entries(bs[i]),
        )
    &&& forall|i: int, j: int|
        0 <= i < j < bs.len() && (#[trigger] bs[i]).1 is None ==> bs[i].0 != (#[trigger] bs[j]).0
}

/// The first of batches that can be logged can be logged.
proof fn lemma_fit_part(bs: Seq<Batch>, n: int)
    requires
        batches_fit(bs),
        0 <= n <= bs.len(),
    ensures
        batches_fit(bs.take(n)),
        n < bs.len() ==> fresh(bs.take(n), bs[n].0),
{
    let part = bs.take(n);
    assert forall|i: int| 0 <= i < part.len() implies one_entries(#[trigger] part[i]).len()
        <= u16::MAX && wal::all_fit(one_entries(part[i])) by {
        assert(part[i] == bs[i]);
    }
    assert forall|i: int, j: int|
        0 <= i < j < part.len() && (#[trigger] part[i]).1 is None implies part[i].0 != (
    #[trigger] part[j]).0 by {
        assert(part[i] == bs[i] && part[j] == bs[j]);
    }
    if n < bs.len() {
        assert forall|i: int| 0 <= i < part.len() && (#[trigger] part[i]).1 is None implies
            part[i].0 != bs[n].0 by {
            assert(part[i] == bs[i]);
        }
    }
}

/// A batch more can be logged when its transaction has not begun before.
pub proof fn lemma_fit_push(bs: Seq<Batch>, b: Batch)
    requires
        batches_fit(bs),
        fresh(bs, b.0),
        one_entries(b).len() <= u16::MAX,
        wal::all_fit(one_entries(b)),
    ensures
        batches_fit(bs.push(b)),
{
    let ns = bs.push(b);
    assert forall|i: int| 0 <= i < ns.len() implies one_entries(#[trigger] ns[i]).len()
        <= u16::MAX && wal::all_fit(one_entries(ns[i])) by {
        if i < bs.len() {
            assert(ns[i] == bs[i]);
        }
    }
    assert forall|i: int, j: int|
        0 <= i < j < ns.len() && (#[trigger] ns[i]).1 is None implies ns[i].0 != (
    #[trigger] ns[j]).0 by {
        assert(ns[i] == bs[i]);
        if j < bs.len() {
            assert(ns[j] == bs[j]);
        }
    }
}

/// Which transactions have begun and are not committed.
proof fn lemma_strays(bs: Seq<Batch>, tx_id: u64)
    requires
        fresh(bs, tx_id),
    ensures
        !strays(bs).contains_key(tx_id),
    decreases bs.len(),
{
    if bs.len() > 0 {
        let prev = bs.drop_last();
        assert forall|i: int| 0 <= i < prev.len() && (#[trigger] prev[i]).1 is None implies
            prev[i].0 != tx_id by {
            assert(prev[i] == bs[i]);
        }
        lemma_strays(prev, tx_id);
        assert(bs[bs.len() - 1] == bs.last());
    }
}

/// More writes, and more behind them.
pub proof fn lemma_put_all_join(m: Map<KeyView, ValueView>, a: Seq<Entry>, b: Seq<Entry>)
    ensures
        put_all(m, a + b) == put_all(put_all(m, a), b),
    decreases b.len(),
{
    if b.len() == 0 {
        assert(a + b =~= a);
    } else {
        assert((a + b).drop_last() =~= a + b.drop_last());
        lemma_put_all_join(m, a, b.drop_last());
    }
}

/// The highest of writes, and of more behind them.
pub proof fn lemma_highest_join(seq: u64, a: Seq<Entry>, b: Seq<Entry>)
    ensures
        highest(seq, a + b) == highest(highest(seq, a), b),
    decreases b.len(),
{
    if b.len() == 0 {
        assert(a + b =~= a);
    } else {
        assert((a + b).drop_last() =~= a + b.drop_last());
        lemma_highest_join(seq, a, b.drop_last());
    }
}

/// No entry is above the highest.
pub proof fn lemma_highest(seq: u64, es: Seq<Entry>)
    ensures
        seq <= highest(seq, es),
        forall|i: int| 0 <= i < es.len() ==> (#[trigger] es[i]).0.seq <= highest(seq, es),
    decreases es.len(),
{
    if es.len() > 0 {
        lemma_highest(seq, es.drop_last());
        assert forall|i: int| 0 <= i < es.len() implies (#[trigger] es[i]).0.seq <= highest(
            seq,
            es,
        ) by {
            if i < es.len() - 1 {
                assert(es.drop_last()[i] == es[i]);
            }
        }
    }
}

/// Writing to a fresh table first and adding that to the versions is the same
/// as writing to the versions.
pub proof fn lemma_put_all_fresh(m: Map<KeyView, ValueView>, es: Seq<Entry>)
    ensures
        put_all(m, es) == put_all(Map::empty(), es).union_prefer_right(m),
    decreases es.len(),
{
    if es.len() == 0 {
        assert(Map::<KeyView, ValueView>::empty().union_prefer_right(m) =~= m);
    } else {
        lemma_put_all_fresh(m, es.drop_last());
        assert(put_all(m, es) =~= put_all(Map::empty(), es).union_prefer_right(m));
    }
}

/// Replaying one batch adds its writes.
proof fn lemma_run_batch(r: Replay, id: u64, writes: Seq<Entry>)
    requires
        !r.open.contains_key(id),
    ensures
        r.run(wal::stored_cmds(one_batch((id, Some(writes))))) == Ok::<Replay, Fault>(
            Replay {
                table: put_all(r.table, layout::stored(writes)),
                max_seq: highest(r.max_seq, layout::stored(writes)),
                max_tx_id: larger(r.max_tx_id, id),
                ..r
            },
        ),
{
    let es = layout::stored(writes);
    let cs = wal::stored_cmds(one_batch((id, Some(writes))));
    let c1 = cs.take(1);
    let c2 = cs.take(2);
    assert(cs.drop_last() =~= c2);
    assert(c2.drop_last() =~= c1);
    assert(c1.drop_last() =~= Seq::<CmdView>::empty());
    assert(r.run(c1.drop_last()) == Ok::<Replay, Fault>(r));
    let r1 = Replay { open: r.open.insert(id, Map::empty()), ..r };
    assert(r.run(c1) == Ok::<Replay, Fault>(r1));
    let r2 = r1.wrote(id, es);
    assert(r.run(c2) == Ok::<Replay, Fault>(r2));
    assert(r2.open[id] == put_all(Map::empty(), es));
    lemma_put_all_fresh(r.table, es);
    assert(r2.open.remove(id) =~= r.open);
}

/// Replaying the beginning of a transaction opens it.
proof fn lemma_run_begin(r: Replay, id: u64)
    requires
        !r.open.contains_key(id),
    ensures
        r.run(wal::stored_cmds(seq![CmdView::TxBegin(id)])) == Ok::<Replay, Fault>(
            Replay { open: r.open.insert(id, Map::empty()), ..r },
        ),
{
    let cs = wal::stored_cmds(seq![CmdView::TxBegin(id)]);
    assert(cs.drop_last() =~= Seq::<CmdView>::empty());
    assert(r.run(cs.drop_last()) == Ok::<Replay, Fault>(r));
    assert(cs.last() == CmdView::TxBegin(id));
}

/// Replaying the log of batches gives back the writes that were committed.
pub proof fn law_replay_batches(r: Replay, bs: Seq<Batch>)
    requires
        r.open == Map::<u64, Map<KeyView, ValueView>>::empty(),
        batches_fit(bs),
    ensures
        r.run(wal::stored_cmds(batch_cmds(bs))) == Ok::<Replay, Fault>(
            Replay {
                table: put_all(r.table, layout::stored(batch_entries(bs))),
                max_seq: highest(r.max_seq, layout::stored(batch_entries(bs))),
                max_tx_id: highest_tx(r.max_tx_id, bs),
                open: strays(bs),
            },
        ),
    decreases bs.len(),
{
    if bs.len() == 0 {
        assert(wal::stored_cmds(batch_cmds(bs)) =~= Seq::<CmdView>::empty());
        assert(layout::stored(batch_entries(bs)) =~= Seq::<Entry>::empty());
    } else {
        let prev = bs.drop_last();
        let b = bs.last();
        let n = bs.len() - 1;
        lemma_fit_part(bs, n);
        assert(bs.take(n) =~= prev);
        lemma_strays(prev, b.0);
        law_replay_batches(r, prev);
        let mid = r.run(wal::stored_cmds(batch_cmds(prev)))->Ok_0;
        assert(wal::stored_cmds(batch_cmds(bs)) =~= wal::stored_cmds(batch_cmds(prev))
            + wal::stored_cmds(one_batch(b)));
        lemma_run_join(
            r,
            wal::stored_cmds(batch_cmds(prev)),
            wal::stored_cmds(one_batch(b)),
        );
        let (x, y) = (layout::stored(batch_entries(prev)), layout::stored(one_entries(b)));
        assert(layout::stored(batch_entries(bs)) =~= x + y);
        match b.1 {
            Some(es) => {
                lemma_run_batch(mid, b.0, es);
                lemma_put_all_join(r.table, x, y);
                lemma_highest_join(r.max_seq, x, y);
            },
            None => {
                lemma_run_begin(mid, b.0);
                assert(x + y =~= x);
            },
        }
    }
}

/// How many batches are whole in the first `k` commands of their log.
pub open spec fn whole_count(bs: Seq<Batch>, k: int) -> nat
    decreases bs.len(),
{
    if bs.len() == 0 || k >= batch_cmds(bs).len() {
        bs.len()
    } else {
        whole_count(bs.drop_last(), k)
    }
}

/// The first commands of a log are those of whole batches, and some of the next.
proof fn lemma_batch_cmds_prefix(bs: Seq<Batch>, k: int) -> (m: int)
    requires
        0 <= k <= batch_cmds(bs).len(),
    ensures
        whole_count(bs, k) <= bs.len(),
        whole_count(bs, k) == bs.len() ==> k == batch_cmds(bs).len(),
        whole_count(bs, k) < bs.len() ==> {
            let j = whole_count(bs, k) as int;
            &&& 0 <= m < one_batch(bs[j]).len()
            &&& batch_cmds(bs).take(k) == batch_cmds(bs.take(j)) + one_batch(bs[j]).take(m)
        },
    decreases bs.len(),
{
    let cs = batch_cmds(bs);
    if bs.len() == 0 || k == cs.len() {
        0
    } else {
        let prev = bs.drop_last();
        let b = bs.last();
        let n = batch_cmds(prev).len();
        if k < n {
            let m = lemma_batch_cmds_prefix(prev, k);
            let j = whole_count(prev, k) as int;
            assert(j < prev.len());
            assert(cs.take(k) =~= batch_cmds(prev).take(k));
            assert(bs.take(j) =~= prev.take(j));
            assert(prev[j] == bs[j]);
            m
        } else {
            assert(whole_count(prev, k) == prev.len());
            assert(bs.take(prev.len() as int) =~= prev);
            assert(cs.take(k) =~= batch_cmds(prev) + one_batch(b).take(k - n));
            k - n
        }
    }
}

/// What a log of batches that was cut off after some whole records gives back:
/// the writes of the batches whose commit is in it, and nothing of the others.
proof fn lemma_replay_prefix(bs: Seq<Batch>, k: int, max_seq: u64, max_tx_id: u64)
    requires
        batches_fit(bs),
        0 <= k <= batch_cmds(bs).len(),
    ensures
        whole_count(bs, k) <= bs.len(),
        Replay::start(max_seq, max_tx_id).run(
            wal::stored_cmds(batch_cmds(bs).take(k)),
        ) matches Ok(r) && {
            let whole = bs.take(whole_count(bs, k) as int);
            &&& r.table == put_all(Map::empty(), layout::stored(batch_entries(whole)))
            &&& r.max_tx_id == highest_tx(max_tx_id, whole)
            &&& r.max_seq >= highest(max_seq, layout::stored(batch_entries(whole)))
        },
{
    let r = Replay::start(max_seq, max_tx_id);
    let m = lemma_batch_cmds_prefix(bs, k);
    let j = whole_count(bs, k) as int;
    let pre = bs.take(j);
    lemma_fit_part(bs, j);
    law_replay_batches(r, pre);
    let r0 = r.run(wal::stored_cmds(batch_cmds(pre)))->Ok_0;
    if j == bs.len() {
        assert(pre =~= bs);
        assert(batch_cmds(bs).take(k) =~= batch_cmds(bs));
    } else {
        let b = bs[j];
        lemma_strays(pre, b.0);
        let cs = wal::stored_cmds(one_batch(b).take(m));
        assert(wal::stored_cmds(batch_cmds(bs).take(k)) =~= wal::stored_cmds(batch_cmds(pre)) + cs);
        lemma_run_join(r, wal::stored_cmds(batch_cmds(pre)), cs);
        if m == 0 {
            assert(cs =~= Seq::<CmdView>::empty());
        } else {
            let es = b.1->0;
            let c1 = wal::stored_cmds(seq![CmdView::TxBegin(b.0)]);
            let r1 = Replay { open: r0.open.insert(b.0, Map::empty()), ..r0 };
            lemma_run_begin(r0, b.0);
            if m == 1 {
                assert(cs =~= c1);
            } else {
                assert(cs.drop_last() =~= c1);
                assert(r0.run(cs) == Ok::<Replay, Fault>(r1.wrote(b.0, layout::stored(es))));
                lemma_highest(r0.max_seq, layout::stored(es));
            }
        }
    }
}

/// Whatever part of a log of batches a crash leaves behind, replaying it gives
/// back the writes of the batches whose commit record is whole, and nothing of
/// the others.
pub proof fn law_recovery(bs: Seq<Batch>, n: int, max_seq: u64, max_tx_id: u64)
    requires
        batches_fit(bs),
        0 <= n <= wal::log_bytes(batch_cmds(bs)).len(),
    ensures
        ({
            let whole = whole_count(bs, wal::whole_records(batch_cmds(bs), n) as int) as int;
            &&& 0 <= whole <= bs.len()
            &&& Replay::start(max_seq, max_tx_id).of_log(
                wal::log_bytes(batch_cmds(bs)).take(n),
            ) matches Ok(r) && {
                &&& r.table == put_all(Map::empty(), layout::stored(batch_entries(bs.take(whole))))
                &&& r.max_tx_id == highest_tx(max_tx_id, bs.take(whole))
                &&& r.max_seq >= highest(max_seq, layout::stored(batch_entries(bs.take(whole))))
            }
            &&& n == wal::log_bytes(batch_cmds(bs)).len() ==> whole == bs.len()
        }),
{
    let cs = batch_cmds(bs);
    lemma_batches_fit(bs);
    wal::law_torn_log(cs, n);
    wal::lemma_whole_records(cs, n);
    lemma_replay_prefix(bs, wal::whole_records(cs, n) as int, max_seq, max_tx_id);
}

/// The commands of batches that can be logged can be written.
pub proof fn lemma_batches_fit(bs: Seq<Batch>)
    requires
        batches_fit(bs),
    ensures
        wal::all_cmds_fit(batch_cmds(bs)),
    decreases bs.len(),
{
    if bs.len() > 0 {
        let prev = bs.drop_last();
        let b = bs.last();
        lemma_fit_part(bs, bs.len() - 1);
        assert(bs.take(bs.len() - 1) =~= prev);
        lemma_batches_fit(prev);
        assert(one_entries(bs[bs.len() - 1]).len() <= u16::MAX);
        let cs = batch_cmds(bs);
        assert forall|i: int| 0 <= i < cs.len() implies (#[trigger] cs[i]).fits() by {
            let n = batch_cmds(prev).len();
            if i < n {
                assert(cs[i] == batch_cmds(prev)[i]);
            } else {
                assert(cs[i] == one_batch(b)[i - n]);
            }
        }
    }
}

/// Whether no version of a replay is above its highest sequence number.
pub open spec fn bounded(r: Replay) -> bool {
    &&& forall|k: KeyView| #[trigger] r.table.contains_key(k) ==> k.seq <= r.max_seq
    &&& forall|id: u64, k: KeyView|
        r.open.contains_key(id) && #[trigger] r.open[id].contains_key(k) ==> k.seq <= r.max_seq
}

/// Replaying keeps the highest sequence number above all versions.
proof fn lemma_step_bounded(r: Replay, c: CmdView)
    requires
        bounded(r),
        r.step(c) is Ok,
    ensures
        bounded(r.step(c)->Ok_0),
        r.max_seq <= r.step(c)->Ok_0.max_seq,
{
    match c {
        CmdView::Op(id, e) => {
            lemma_wrote_bounded(r, id, seq![e]);
        },
        CmdView::Batch(id, es) => {
            lemma_wrote_bounded(r, id, es);
        },
        CmdView::TxCommit(id) => {
            let n = r.step(c)->Ok_0;
            assert forall|k: KeyView| #[trigger] n.table.contains_key(k) implies k.seq
                <= n.max_seq by {
                if !r.table.contains_key(k) {
                    assert(r.open[id].contains_key(k));
                }
            }
            assert forall|x: u64, k: KeyView|
                n.open.contains_key(x) && #[trigger] n.open[x].contains_key(k) implies k.seq
                <= n.max_seq by {
                assert(r.open[x].contains_key(k));
            }
        },
        CmdView::TxBegin(id) => {
            let n = r.step(c)->Ok_0;
            assert forall|x: u64, k: KeyView|
                n.open.contains_key(x) && #[trigger] n.open[x].contains_key(k) implies k.seq
                <= n.max_seq by {
                if x != id {
                    assert(r.open[x].contains_key(k));
                }
            }
        },
    }
}

proof fn lemma_wrote_bounded(r: Replay, tx_id: u64, es: Seq<Entry>)
    requires
        bounded(r),
    ensures
        bounded(r.wrote(tx_id, es)),
        r.max_seq <= r.wrote(tx_id, es).max_seq,
{
    let n = r.wrote(tx_id, es);
    lemma_highest(r.max_seq, es);
    assert forall|id: u64, k: KeyView|
        n.open.contains_key(id) && #[trigger] n.open[id].contains_key(k) implies k.seq
        <= n.max_seq by {
        if id == tx_id {
            layers::lemma_put_all_keys(r.open[id], es, k);
            if versions::has_key(es, k) {
                let i = choose|i: int| 0 <= i < es.len() && (#[trigger] es[i]).0 == k;
                assert(es[i].0.seq <= n.max_seq);
            } else {
                assert(r.open[id].contains_key(k));
            }
        } else {
            assert(r.open[id].contains_key(k));
        }
    }
}

proof fn lemma_run_bounded(r: Replay, cs: Seq<CmdView>)
    requires
        bounded(r),
        r.run(cs) is Ok,
    ensures
        bounded(r.run(cs)->Ok_0),
        r.max_seq <= r.run(cs)->Ok_0.max_seq,
    decreases cs.len(),
{
    if cs.len() > 0 {
        lemma_run_bounded(r, cs.drop_last());
        lemma_step_bounded(r.run(cs.drop_last())->Ok_0, cs.last());
    }
}

/// The tables of what logs gave back.
pub open spec fn restored_layers(v: RestoredView) -> Seq<Map<KeyView, ValueView>> {
    Seq::new(v.tables.len(), |i: int| v.tables[i].1)
}

/// Whatever logs give back, no version is above the highest sequence number that
/// is reported.
pub proof fn law_restored_sequences(logs: Seq<(Seq<char>, Seq<u8>)>)
    requires
        restored(logs) is Ok,
    ensures
        layers::at_most(restored_layers(restored(logs)->Ok_0), restored(logs)->Ok_0.max_seq),
    decreases logs.len(),
{
    let v = restored(logs)->Ok_0;
    let ls = restored_layers(v);
    if logs.len() > 0 {
        law_restored_sequences(logs.drop_last());
        let p = restored(logs.drop_last())->Ok_0;
        let start = Replay::start(p.max_seq, p.max_tx_id);
        let cs = wal::commands(logs.last().1, 0).0;
        lemma_run_bounded(start, cs);
        let r = start.run(cs)->Ok_0;
        assert forall|i: int, k: KeyView|
            0 <= i < ls.len() && #[trigger] ls[i].contains_key(k) implies k.seq <= v.max_seq by {
            if i < p.tables.len() {
                assert(restored_layers(p)[i] == ls[i]);
            } else {
                assert(ls[i] == r.table);
            }
        }
    }
}

/// No batch that was committed is above the highest transaction number.
proof fn lemma_highest_tx(tx: u64, bs: Seq<Batch>)
    ensures
        tx <= highest_tx(tx, bs),
        forall|j: int|
            0 <= j < bs.len() && (#[trigger] bs[j]).1 is Some ==> bs[j].0 <= highest_tx(tx, bs),
    decreases bs.len(),
{
    if bs.len() > 0 {
        lemma_highest_tx(tx, bs.drop_last());
        assert forall|j: int| 0 <= j < bs.len() && (#[trigger] bs[j]).1 is Some implies bs[j].0
            <= highest_tx(tx, bs) by {
            if j < bs.len() - 1 {
                assert(bs.drop_last()[j] == bs[j]);
            }
        }
    }
}

/// A log that was written whole loses no batch.
pub proof fn law_nothing_is_lost(bs: Seq<Batch>)
    requires
        batches_fit(bs),
    ensures
        whole_batches(bs, wal::log_bytes(batch_cmds(bs)).len() as int) == bs,
{
    law_recovery(bs, wal::log_bytes(batch_cmds(bs)).len() as int, 0, 0);
    assert(bs.take(bs.len() as int) =~= bs);
}

/// What is left of the logs of batches after a crash.
pub open spec fn crashed_logs(
    ids: Seq<u64>,
    bss: Seq<Seq<Batch>>,
    cuts: Seq<int>,
) -> Seq<(Seq<char>, Seq<u8>)> {
    Seq::new(
        ids.len(),
        |i: int|
            (
                text::decimal_text(ids[i] as nat),
                wal::log_bytes(batch_cmds(bss[i])).take(cuts[i]),
            ),
    )
}

/// The batches of a log that are whole in its first `n` bytes.
pub open spec fn whole_batches(bs: Seq<Batch>, n: int) -> Seq<Batch> {
    bs.take(whole_count(bs, wal::whole_records(batch_cmds(bs), n) as int) as int)
}

/// The writes of whole batches of logs.
pub open spec fn whole_writes(bss: Seq<Seq<Batch>>, cuts: Seq<int>) -> Seq<Seq<Entry>> {
    Seq::new(bss.len(), |i: int| batch_entries(whole_batches(bss[i], cuts[i])))
}

/// The writes of the first batches are the first of all writes.
proof fn lemma_first_batches(bs: Seq<Batch>, n: int)
    requires
        0 <= n <= bs.len(),
    ensures
        batch_entries(bs.take(n)).len() <= batch_entries(bs).len(),
        batch_entries(bs.take(n)) == batch_entries(bs).take(
            batch_entries(bs.take(n)).len() as int,
        ),
    decreases bs.len(),
{
    if n == bs.len() {
        assert(bs.take(n) =~= bs);
        assert(batch_entries(bs) =~= batch_entries(bs).take(batch_entries(bs).len() as int));
    } else {
        let prev = bs.drop_last();
        lemma_first_batches(prev, n);
        assert(prev.take(n) =~= bs.take(n));
        let es = batch_entries(bs.take(n));
        assert(batch_entries(bs).take(es.len() as int) =~= batch_entries(prev).take(
            es.len() as int,
        ));
    }
}

/// The writes of whole batches are the first of all writes of their log.
pub proof fn lemma_whole_writes(bss: Seq<Seq<Batch>>, cuts: Seq<int>)
    requires
        cuts.len() == bss.len(),
    ensures
        forall|i: int|
            0 <= i < bss.len() ==> {
                let ps = #[trigger] whole_writes(bss, cuts)[i];
                &&& ps.len() <= batch_entries(bss[i]).len()
                &&& ps == batch_entries(bss[i]).take(ps.len() as int)
            },
{
    assert forall|i: int| 0 <= i < bss.len() implies {
        let ps = #[trigger] whole_writes(bss, cuts)[i];
        &&& ps.len() <= batch_entries(bss[i]).len()
        &&& ps == batch_entries(bss[i]).take(ps.len() as int)
    } by {
        let bs = bss[i];
        let k = wal::whole_records(batch_cmds(bs), cuts[i]) as int;
        lemma_whole_count(bs, k);
        lemma_first_batches(bs, whole_count(bs, k) as int);
    }
}

/// No more batches are whole than there are.
proof fn lemma_whole_count(bs: Seq<Batch>, k: int)
    ensures
        whole_count(bs, k) <= bs.len(),
    decreases bs.len(),
{
    if bs.len() > 0 && k < batch_cmds(bs).len() {
        lemma_whole_count(bs.drop_last(), k);
    }
}

/// Whatever part of its logs a crash leaves of a store, opening it gives back for
/// each log a table with the writes of the batches whose commit record is whole.
pub proof fn law_restore(ids: Seq<u64>, bss: Seq<Seq<Batch>>, cuts: Seq<int>)
    requires
        ids.len() == bss.len() == cuts.len(),
        forall|i: int| 0 <= i < bss.len() ==> batches_fit(#[trigger] bss[i]),
        forall|i: int|
            0 <= i < bss.len() ==> 0 <= #[trigger] cuts[i] <= wal::log_bytes(
                batch_cmds(bss[i]),
            ).len(),
    ensures
        restored(crashed_logs(ids, bss, cuts)) matches Ok(v) && {
            &&& v.tables.len() == ids.len()
            &&& forall|i: int|
                0 <= i < ids.len() ==> (#[trigger] v.tables[i]).0 == ids[i]
            &&& restored_layers(v) == layers::tables_of_writes(
                layers::all_stored(whole_writes(bss, cuts)),
            )
            &&& forall|i: int, j: int|
                0 <= i < bss.len() && 0 <= j < whole_batches(bss[i], cuts[i]).len() && (
                #[trigger] whole_batches(bss[i], cuts[i])[j]).1 is Some ==> whole_batches(
                    bss[i],
                    cuts[i],
                )[j].0 <= v.max_tx_id
        },
    decreases ids.len(),
{
    let logs = crashed_logs(ids, bss, cuts);
    let target = layers::tables_of_writes(layers::all_stored(whole_writes(bss, cuts)));
    if ids.len() == 0 {
        assert(restored_layers(restored(logs)->Ok_0) =~= target);
    } else {
        let (pids, pbss, pcuts) = (ids.drop_last(), bss.drop_last(), cuts.drop_last());
        assert forall|i: int| 0 <= i < pbss.len() implies batches_fit(#[trigger] pbss[i]) by {
            assert(pbss[i] == bss[i]);
        }
        assert forall|i: int| 0 <= i < pbss.len() implies 0 <= #[trigger] pcuts[i]
            <= wal::log_bytes(batch_cmds(pbss[i])).len() by {
            assert(pcuts[i] == cuts[i] && pbss[i] == bss[i]);
        }
        law_restore(pids, pbss, pcuts);
        assert(logs.drop_last() =~= crashed_logs(pids, pbss, pcuts));
        let n = ids.len() - 1;
        let p = restored(logs.drop_last())->Ok_0;
        assert(0 <= cuts[n] <= wal::log_bytes(batch_cmds(bss[n])).len());
        assert(batches_fit(bss[n]));
        law_recovery(bss[n], cuts[n], p.max_seq, p.max_tx_id);
        text::law_decimal_round_trip(ids[n] as nat, u64::MAX as nat);
        let v = restored(logs)->Ok_0;
        assert forall|i: int| 0 <= i < ids.len() implies (#[trigger] v.tables[i]).0 == ids[i] by {
            if i < n {
                assert(v.tables[i] == p.tables[i]);
                assert(pids[i] == ids[i]);
            }
        }
        lemma_highest_tx(p.max_tx_id, whole_batches(bss[n], cuts[n]));
        assert forall|i: int, j: int|
            0 <= i < bss.len() && 0 <= j < whole_batches(bss[i], cuts[i]).len() && (
            #[trigger] whole_batches(bss[i], cuts[i])[j]).1 is Some implies whole_batches(
            bss[i],
            cuts[i],
        )[j].0 <= v.max_tx_id by {
            if i < n {
                assert(whole_batches(pbss[i], pcuts[i])[j].0 <= p.max_tx_id);
            }
        }
        let ls = restored_layers(v);
        assert forall|i: int| 0 <= i < ls.len() implies ls[i] == target[i] by {
            if i < n {
                assert(ls[i] == restored_layers(p)[i]);
                assert(whole_writes(pbss, pcuts)[i] == whole_writes(bss, cuts)[i]);
            }
        }
        assert(ls =~= target);
    }
}

/// The numbers of the logs in a directory are those of the names that are numbers.
pub proof fn law_log_numbers(names: Seq<Seq<char>>, id: u64)
    ensures
        parsed_ids(names).contains(id) <==> exists|i: int|
            0 <= i < names.len() && text::parsed_number(#[trigger] names[i], u64::MAX as nat)
                == Some(id as nat),
        parsed_ids(names).len() <= names.len(),
    decreases names.len(),
{
    if names.len() > 0 {
        let prev = names.drop_last();
        law_log_numbers(prev, id);
        let (a, b) = (parsed_ids(prev), parsed_ids(names));
        let last = text::parsed_number(names.last(), u64::MAX as nat);
        if a.contains(id) {
            let i = choose|i: int|
                0 <= i < prev.len() && text::parsed_number(#[trigger] prev[i], u64::MAX as nat)
                    == Some(id as nat);
            assert(names[i] == prev[i]);
            let x = choose|x: int| 0 <= x < a.len() && a[x] == id;
            assert(b[x] == id);
        }
        if last == Some(id as nat) {
            assert(names[names.len() - 1] == names.last());
            assert(b.last() == id);
        }
        if b.contains(id) && !a.contains(id) {
            let x = choose|x: int| 0 <= x < b.len() && b[x] == id;
            if x < a.len() {
                assert(a[x] == id);
            }
            assert(last == Some(id as nat));
        }
        if exists|i: int|
            0 <= i < names.len() && text::parsed_number(#[trigger] names[i], u64::MAX as nat)
                == Some(id as nat) {
            let i = choose|i: int|
                0 <= i < names.len() && text::parsed_number(#[trigger] names[i], u64::MAX as nat)
                    == Some(id as nat);
            if i < prev.len() {
                assert(prev[i] == names[i]);
            }
        }
    }
}

/// Adding versions keeps those that are there, and adds of the others the first one
/// under each key.
pub proof fn law_versions_are_added(m: Map<KeyView, ValueView>, es: Seq<Entry>, k: KeyView)
    ensures
        m.contains_key(k) ==> put_all(m, es).contains_key(k) && put_all(m, es)[k] == m[k],
        put_all(m, es).contains_key(k) <==> m.contains_key(k) || exists|i: int|
            0 <= i < es.len() && (#[trigger] es[i]).0 == k,
        forall|i: int|
            !m.contains_key(k) && 0 <= i < es.len() && (#[trigger] es[i]).0 == k && (forall|j: int|
                0 <= j < i ==> (#[trigger] es[j]).0 != k) ==> put_all(m, es)[k] == es[i].1,
    decreases es.len(),
{
    if es.len() > 0 {
        let prev = es.drop_last();
        law_versions_are_added(m, prev, k);
        assert(forall|i: int| 0 <= i < prev.len() ==> #[trigger] prev[i] == es[i]);
        if exists|i: int| 0 <= i < es.len() && (#[trigger] es[i]).0 == k {
            let i = choose|i: int| 0 <= i < es.len() && (#[trigger] es[i]).0 == k;
            if i < prev.len() {
                assert(prev[i].0 == k);
            }
        }
        if put_all(m, prev).contains_key(k) && !m.contains_key(k) {
            let i = choose|i: int| 0 <= i < prev.len() && (#[trigger] prev[i]).0 == k;
            assert(es[i].0 == k);
        }
        if es.last().0 == k {
            assert(es[es.len() - 1].0 == k);
        }
        assert forall|i: int|
            !m.contains_key(k) && 0 <= i < es.len() && (#[trigger] es[i]).0 == k && (forall|j: int|
                0 <= j < i ==> (#[trigger] es[j]).0 != k) implies put_all(m, es)[k] == es[i].1 by {
            if i < prev.len() {
                assert(prev[i].0 == k);
                assert forall|j: int| 0 <= j < i implies (#[trigger] prev[j]).0 != k by {
                    assert(es[j].0 != k);
                }
            } else {
                assert forall|j: int| 0 <= j < prev.len() implies (#[trigger] prev[j]).0 != k by {
                    assert(es[j].0 != k);
                }
            }
        }
    }
}

/// The writes of a transaction, each in a record of its own.
proof fn lemma_run_ops(r: Replay, id: u64, es: Seq<Entry>)
    requires
        r.open.contains_key(id),
    ensures
        r.run(Seq::new(es.len(), |i: int| CmdView::Op(id, es[i]))) == Ok::<Replay, Fault>(
            Replay {
                open: r.open.insert(id, put_all(r.open[id], es)),
                max_seq: highest(r.max_seq, es),
                ..r
            },
        ),
    decreases es.len(),
{
    let cs = Seq::new(es.len(), |i: int| CmdView::Op(id, es[i]));
    if es.len() == 0 {
        assert(r.open.insert(id, put_all(r.open[id], es)) =~= r.open);
    } else {
        let prev = es.drop_last();
        lemma_run_ops(r, id, prev);
        assert(cs.drop_last() =~= Seq::new(prev.len(), |i: int| CmdView::Op(id, prev[i])));
        let e = es.last();
        let mid = put_all(r.open[id], prev);
        assert(seq![e].drop_last() =~= Seq::<Entry>::empty());
        assert(put_all(mid, seq![e].drop_last()) == mid);
        assert(put_all(mid, seq![e]) == put_all(r.open[id], es));
        assert(highest(highest(r.max_seq, prev), seq![e].drop_last()) == highest(r.max_seq, prev));
        assert(r.open.insert(id, mid).insert(id, put_all(mid, seq![e])) =~= r.open.insert(
            id,
            put_all(r.open[id], es),
        ));
    }
}

/// A transaction whose commit is in the log is restored with all its writes, and one
/// whose commit is not there with none, whether its writes stand in a record each or
/// in one. Versions that were there before stay as they are.
pub proof fn law_only_committed_transactions_are_restored(
    r: Replay,
    id: u64,
    es: Seq<Entry>,
    k: KeyView,
)
    requires
        !r.open.contains_key(id),
    ensures
        ({
            let ops = seq![CmdView::TxBegin(id)] + Seq::new(
                es.len(),
                |i: int| CmdView::Op(id, es[i]),
            );
            let batch = seq![CmdView::TxBegin(id), CmdView::Batch(id, es)];
            &&& r.run(ops) matches Ok(x) && x.table == r.table
            &&& r.run(batch) matches Ok(x) && x.table == r.table
            &&& r.run(ops.push(CmdView::TxCommit(id))) matches Ok(x) && {
                &&& x.open == r.open
                &&& x.table.contains_key(k) <==> r.table.contains_key(k) || exists|i: int|
                    0 <= i < es.len() && (#[trigger] es[i]).0 == k
                &&& r.table.contains_key(k) ==> x.table[k] == r.table[k]
                &&& forall|i: int|
                    !r.table.contains_key(k) && 0 <= i < es.len() && (#[trigger] es[i]).0 == k && (
                    forall|j: int| 0 <= j < i ==> (#[trigger] es[j]).0 != k) ==> x.table[k]
                        == es[i].1
                &&& x.max_tx_id >= id && x.max_tx_id >= r.max_tx_id
            }
            &&& r.run(batch.push(CmdView::TxCommit(id))) == r.run(ops.push(CmdView::TxCommit(id)))
        }),
{
    let begin = seq![CmdView::TxBegin(id)];
    let each = Seq::new(es.len(), |i: int| CmdView::Op(id, es[i]));
    let (ops, batch) = (begin + each, seq![CmdView::TxBegin(id), CmdView::Batch(id, es)]);
    let begun = Replay { open: r.open.insert(id, Map::empty()), ..r };
    assert(r.run(begin) == Ok::<Replay, Fault>(begun)) by {
        assert(begin.drop_last() =~= Seq::<CmdView>::empty());
        assert(r.run(begin.drop_last()) == Ok::<Replay, Fault>(r));
    }
    lemma_run_join(r, begin, each);
    lemma_run_ops(begun, id, es);
    assert(batch.drop_last() =~= begin);
    assert(ops.push(CmdView::TxCommit(id)).drop_last() =~= ops);
    assert(batch.push(CmdView::TxCommit(id)).drop_last() =~= batch);
    let none = Map::<KeyView, ValueView>::empty();
    assert(begun.open.insert(id, put_all(begun.open[id], es)) =~= begun.wrote(id, es).open);
    assert(r.run(ops) == r.run(batch));
    assert(begun.open.insert(id, put_all(none, es)).remove(id) =~= r.open);
    law_versions_are_added(none, es, k);
    if exists|i: int| 0 <= i < es.len() && (#[trigger] es[i]).0 == k {
        assert(put_all(none, es).contains_key(k));
    }
}

/// A log in which a transaction begins twice, or in which one is committed that has not
/// begun, cannot be replayed. Writes of a transaction that has not begun are passed
/// over.
pub proof fn law_transactions_must_begin_once(r: Replay, id: u64, es: Seq<Entry>)
    ensures
        r.open.contains_key(id) ==> r.run(seq![CmdView::TxBegin(id)]) == Err::<Replay, Fault>(
            Fault::State(
                "corrupted WAL; duplicate transaction id: '"@ + text::decimal_text(id as nat)
                    + "'"@,
            ),
        ),
        !r.open.contains_key(id) ==> r.run(seq![CmdView::TxCommit(id)]) == Err::<Replay, Fault>(
            Fault::State(
                "corrupted WAL; unknown transaction commit: '"@ + text::decimal_text(id as nat)
                    + "'"@,
            ),
        ),
        !r.open.contains_key(id) ==> (r.run(seq![CmdView::Batch(id, es)]) matches Ok(x) && x.table
            == r.table && x.open == r.open),
{
    let (a, b, c) = (
        seq![CmdView::TxBegin(id)],
        seq![CmdView::TxCommit(id)],
        seq![CmdView::Batch(id, es)],
    );
    assert(a.drop_last() =~= Seq::<CmdView>::empty());
    assert(b.drop_last() =~= Seq::<CmdView>::empty());
    assert(c.drop_last() =~= Seq::<CmdView>::empty());
    assert(r.run(Seq::<CmdView>::empty()) == Ok::<Replay, Fault>(r));
}

/// The commands of the first batches are the first of all commands.
proof fn lemma_first_cmds(bs: Seq<Batch>, j: int)
    requires
        0 <= j <= bs.len(),
    ensures
        batch_cmds(bs.take(j)).len() <= batch_cmds(bs).len(),
        batch_cmds(bs.take(j)) == batch_cmds(bs).take(batch_cmds(bs.take(j)).len() as int),
        j < bs.len() ==> batch_cmds(bs.take(j)).len() < batch_cmds(bs).len(),
    decreases bs.len(),
{
    if j == bs.len() {
        assert(bs.take(j) =~= bs);
        assert(batch_cmds(bs).take(batch_cmds(bs).len() as int) =~= batch_cmds(bs));
    } else {
        let prev = bs.drop_last();
        lemma_first_cmds(prev, j);
        assert(prev.take(j) =~= bs.take(j));
        let n = batch_cmds(bs.take(j)).len() as int;
        assert(batch_cmds(bs).take(n) =~= batch_cmds(prev).take(n));
        assert(one_batch(bs.last()).len() > 0);
    }
}

/// The first batches are whole exactly when all their commands are.
proof fn lemma_whole_count_at(bs: Seq<Batch>, k: int, j: int)
    requires
        0 <= j <= bs.len(),
        0 <= k,
    ensures
        whole_count(bs, k) >= j <==> batch_cmds(bs.take(j)).len() <= k,
    decreases bs.len(),
{
    lemma_first_cmds(bs, j);
    if j == bs.len() {
        assert(bs.take(j) =~= bs);
        lemma_whole_count(bs.drop_last(), k);
    } else if k < batch_cmds(bs).len() {
        lemma_whole_count_at(bs.drop_last(), k, j);
        assert(bs.drop_last().take(j) =~= bs.take(j));
    }
}

/// More commands take more bytes.
proof fn lemma_more_bytes(cs: Seq<CmdView>, i: int, j: int)
    requires
        0 <= i <= j <= cs.len(),
    ensures
        wal::log_bytes(cs.take(i)).len() <= wal::log_bytes(cs.take(j)).len(),
    decreases j - i,
{
    if i < j {
        lemma_more_bytes(cs, i, j - 1);
        assert(cs.take(j).drop_last() =~= cs.take(j - 1));
    }
}

/// Of a log of batches that was cut off behind `n` bytes, the first `j` batches come
/// back exactly when all their bytes are within the first `n`.
pub proof fn law_batch_survives_if_its_bytes_do(bs: Seq<Batch>, n: int, j: int)
    requires
        0 <= n <= wal::log_bytes(batch_cmds(bs)).len(),
        0 <= j <= bs.len(),
    ensures
        whole_batches(bs, n).len() >= j <==> wal::log_bytes(batch_cmds(bs.take(j))).len() <= n,
        whole_batches(bs, n) == bs.take(whole_batches(bs, n).len() as int),
{
    let cs = batch_cmds(bs);
    let k = wal::whole_records(cs, n) as int;
    wal::lemma_whole_records(cs, n);
    lemma_whole_count(bs, k);
    lemma_whole_count_at(bs, k, j);
    lemma_first_cmds(bs, j);
    let m = batch_cmds(bs.take(j)).len() as int;
    if m <= k {
        lemma_more_bytes(cs, m, k);
    } else {
        lemma_more_bytes(cs, k + 1, m);
    }
    assert(whole_batches(bs, n) =~= bs.take(whole_batches(bs, n).len() as int));
}

/// Logs are restored only if each has a number for its name, and can itself be replayed,
/// and each then gives a table, in the order of the logs.
pub proof fn law_no_log_is_passed_over(logs: Seq<(Seq<char>, Seq<u8>)>, i: int)
    requires
        restored(logs) is Ok,
        0 <= i < logs.len(),
    ensures
        restored(logs)->Ok_0.tables.len() == logs.len(),
        text::parsed_number(logs[i].0, 0xFFFF_FFFF_FFFF_FFFF) == Some(
            restored(logs)->Ok_0.tables[i].0 as nat,
        ),
        exists|a: u64, b: u64| #[trigger] Replay::start(a, b).of_log(logs[i].1) matches Ok(r)
            && r.table == restored(logs)->Ok_0.tables[i].1,
        wal::commands(logs[i].1, 0).1 is None,
    decreases logs.len(),
{
    let prev = logs.drop_last();
    let v = restored(prev)->Ok_0;
    if prev.len() > 0 {
        law_no_log_is_passed_over(prev, if i < prev.len() { i } else { 0 });
    } else {
        assert(v.tables.len() == 0);
    }
    let w = restored(logs)->Ok_0;
    if i < prev.len() {
        assert(w.tables[i] == v.tables[i]);
        assert(prev[i] == logs[i]);
    } else {
        assert(w.tables[i] == w.tables.last());
        assert(Replay::start(v.max_seq, v.max_tx_id).of_log(logs[i].1) is Ok);
    }
}

} // verus!
