//! The logs of a collection: plain writes, one log for each table in memory.

use vstd::prelude::*;

use crate::common::error::{DbError, DbResult, Fault};
use crate::common::key::KeyView;
use crate::common::path;
use crate::common::text;
use crate::common::versions::Entry;
use crate::memtable::MemTable;
use crate::sstable::layout;
use crate::storage::layers;
use crate::storage::layers::Versions;
use crate::storage::wal as logs;
use crate::storage::wal::Trouble;
use crate::wal;
use crate::wal::wal as plain;
use crate::wal::wal::{WalReader, WalWriter};

verus! {

/// The directory of the logs.
pub const WAL_DIR: &'static str = "wal";

/// What the logs gave back.
pub struct Restored {
    /// The tables, in the order of the logs.
    pub tables: Vec<MemTable>,
    /// The highest sequence number in the logs.
    pub max_seq: u64,
}

/// The mathematical content of [`Restored`].
pub struct RestoredView {
    /// The number and the versions of each table.
    pub tables: Seq<(u64, Versions)>,
    /// The highest sequence number in the logs.
    pub max_seq: u64,
}

impl View for Restored {
    type V = RestoredView;

    open spec fn view(&self) -> RestoredView {
        RestoredView {
            tables: Seq::new(
                self.tables@.len(),
                |i: int| (self.tables@[i].number(), self.tables@[i]@),
            ),
            max_seq: self.max_seq,
        }
    }
}

impl Restored {
    /// The tables are in good order.
    pub open spec fn wf(&self) -> bool {
        forall|i: int| 0 <= i < self.tables@.len() ==> (#[trigger] self.tables@[i]).wf()
    }
}

/// What logs give back: for each its name and its entries. The first log whose name
/// is no number, or that ends in an entry that has been cut off, is trouble.
pub open spec fn restored(ls: Seq<(Seq<char>, Seq<u8>)>) -> Result<RestoredView, Trouble>
    decreases ls.len(),
{
    if ls.len() == 0 {
        Ok(RestoredView { tables: Seq::empty(), max_seq: 0 })
    } else {
        match restored(ls.drop_last()) {
            Err(t) => Err(t),
            Ok(v) => match text::parsed_number(ls.last().0, u64::MAX as nat) {
                None => Err(Trouble::Name),
                Some(id) => if plain::cut_from(ls.last().1, 0) {
                    Err(Trouble::Log(Fault::Eof))
                } else {
                    let es = plain::entries_from(ls.last().1, 0);
                    Ok(
                        RestoredView {
                            tables: v.tables.push((id as u64, logs::put_all(Map::empty(), es))),
                            max_seq: logs::highest(v.max_seq, es),
                        },
                    )
                },
            },
        }
    }
}

/// The names and entries of logs.
pub open spec fn logs_of(wals: Seq<WalReader>) -> Seq<(Seq<char>, Seq<u8>)> {
    Seq::new(wals.len(), |i: int| (wals[i].name(), wals[i].log()))
}

/// The tables of what logs gave back.
pub open spec fn restored_layers(v: RestoredView) -> Seq<Versions> {
    Seq::new(v.tables.len(), |i: int| v.tables[i].1)
}

/// Trouble among the first logs is trouble among all.
proof fn lemma_restored_early(ls: Seq<(Seq<char>, Seq<u8>)>, n: int)
    requires
        0 <= n <= ls.len(),
        restored(ls.take(n)) is Err,
    ensures
        restored(ls) == restored(ls.take(n)),
    decreases ls.len() - n,
{
    if n < ls.len() {
        assert(ls.take(n + 1).drop_last() =~= ls.take(n));
        lemma_restored_early(ls, n + 1);
    } else {
        assert(ls.take(n) =~= ls);
    }
}

/// Replays one log into a table.
fn restore_table(wal: &mut WalReader, id: u64, max_seq: u64) -> (r: DbResult<(MemTable, u64)>)
    requires
        old(wal).wf(),
    ensures
        match r {
            Ok((table, seq)) => {
                &&& !old(wal).cut()
                &&& table.wf()
                &&& table.number() == id
                &&& table@ == logs::put_all(Map::empty(), old(wal).rest())
                &&& seq == logs::highest(max_seq, old(wal).rest())
            },
            Err(e) => old(wal).cut() && e.reports(Fault::Eof),
        },
{
    let ghost all = wal.rest();
    let mut table = MemTable::new(id);
    let mut seq: u64 = max_seq;
    let ghost mut n: int = 0;
    assert(all.take(0) =~= Seq::<Entry>::empty());
    assert(all.skip(0) =~= all);
    loop
        invariant_except_break
            wal.rest() == all.skip(n),
            wal.cut() == old(wal).cut(),
        invariant
            wal.wf(),
            table.wf(),
            table.number() == id,
            0 <= n <= all.len(),
            table@ == logs::put_all(Map::empty(), all.take(n)),
            seq == logs::highest(max_seq, all.take(n)),
        ensures
            n == all.len(),
            !old(wal).cut(),
        decreases all.len() - n,
    {
        match wal.next() {
            Err(e) => {
                return Err(e);
            },
            Ok(None) => {
                break;
            },
            Ok(Some((key, value))) => {
                assert(all.skip(n)[0] == all[n]);
                assert(all.skip(n).drop_first() =~= all.skip(n + 1));
                assert(all.take(n + 1).drop_last() =~= all.take(n));
                if key.1 > seq {
                    seq = key.1;
                }
                table.put(key, value);
                proof {
                    n = n + 1;
                }
            },
        }
    }
    assert(all.take(n) =~= all);
    Ok((table, seq))
}

/// Replays logs into tables, one for each.
pub fn restore_tables(wals: Vec<WalReader>) -> (r: DbResult<Restored>)
    requires
        forall|i: int|
            0 <= i < wals@.len() ==> (#[trigger] wals@[i]).wf() && wals@[i].at() == 0,
    ensures
        match restored(logs_of(wals@)) {
            Ok(v) => r matches Ok(x) && x.wf() && x@ == v,
            Err(t) => r matches Err(e) && logs::reports(e, t),
        },
{
    let ghost ls = logs_of(wals@);
    let mut left = wals;
    let mut out = Restored { tables: Vec::new(), max_seq: 0 };
    let mut i: usize = 0;
    assert(ls.take(0) =~= Seq::<(Seq<char>, Seq<u8>)>::empty());
    assert(out@.tables =~= Seq::<(u64, Versions)>::empty());
    while i < left.len()
        invariant
            i <= left@.len() == ls.len(),
            left@.len() == wals@.len(),
            ls == logs_of(wals@),
            forall|j: int| i <= j < left@.len() ==> #[trigger] left@[j] == wals@[j],
            forall|j: int|
                0 <= j < wals@.len() ==> (#[trigger] wals@[j]).wf() && wals@[j].at() == 0,
            out.wf(),
            restored(ls.take(i as int)) == Ok::<RestoredView, Trouble>(out@),
        decreases left@.len() - i,
    {
        let ghost before = out@;
        assert(ls.take(i + 1).drop_last() =~= ls.take(i as int));
        assert(left@[i as int] == wals@[i as int]);
        assert(ls[i as int] == (left@[i as int].name(), left@[i as int].log()));
        let id: u64 = match text::parse_u64(left[i].id()) {
            Ok(id) => id,
            Err(e) => {
                proof {
                    lemma_restored_early(ls, i + 1);
                }
                return Err(DbError::from(e));
            },
        };
        let (table, max_seq) = match restore_table(&mut left[i], id, out.max_seq) {
            Ok(restored) => restored,
            Err(e) => {
                proof {
                    lemma_restored_early(ls, i + 1);
                }
                return Err(e);
            },
        };
        out.tables.push(table);
        out.max_seq = max_seq;
        assert(out@.tables =~= before.tables.push((id, table@)));
        i += 1;
    }
    assert(ls.take(i as int) =~= ls);
    Ok(out)
}

/// Gives out the logs of a directory.
pub struct Wal {
    path: String,
    id: u64,
}

impl Wal {
    /// The directory of the logs.
    pub closed spec fn dir(&self) -> Seq<char> {
        self.path@
    }

    /// The number of the next log.
    pub closed spec fn next_id(&self) -> u64 {
        self.id
    }

    /// The logs under `dir`, in whose log directory there are files with these
    /// names.
    pub fn new(dir: &str, names: &Vec<String>) -> (r: DbResult<Self>)
        ensures
            match r {
                Ok(w) => {
                    &&& w.dir() == path::joined(dir@, WAL_DIR@)
                    &&& w.next_id() > 0
                    &&& logs::is_latest(
                        logs::parsed_ids(logs::texts(names@)),
                        (w.next_id() - 1) as u64,
                    )
                },
                Err(e) => {
                    &&& logs::parsed_ids(logs::texts(names@)).contains(u64::MAX)
                    &&& e.is_state("log numbers are used up"@)
                },
            },
            logs::parsed_ids(logs::texts(names@)).contains(u64::MAX) ==> r is Err,
            r matches Ok(w) ==> forall|x: u64| #[trigger]
                logs::parsed_ids(logs::texts(names@)).contains(x) ==> x < w.next_id(),
    {
        let latest: u64 = logs::latest_id(names);
        if latest == u64::MAX {
            return Err(DbError::invalid_state("log numbers are used up"));
        }
        Ok(Self { path: path::join(dir, WAL_DIR), id: latest + 1 })
    }

    /// Makes the tables in memory again from logs.
    pub fn restore(&self, wals: Vec<WalReader>) -> (r: DbResult<Restored>)
        requires
            forall|i: int|
                0 <= i < wals@.len() ==> (#[trigger] wals@[i]).wf() && wals@[i].at() == 0,
        ensures
            match restored(logs_of(wals@)) {
                Ok(v) => r matches Ok(x) && x.wf() && x@ == v,
                Err(t) => r matches Err(e) && logs::reports(e, t),
            },
    {
        restore_tables(wals)
    }

    /// Starts the next log.
    pub fn new_writer(&mut self) -> (r: DbResult<WalWriter>)
        requires
            old(self).next_id() < u64::MAX,
        ensures
            final(self).dir() == old(self).dir(),
            final(self).next_id() == old(self).next_id() + 1,
            r matches Ok(w) && {
                &&& w.name() == text::decimal_text(old(self).next_id() as nat)
                &&& w.log() == Seq::<u8>::empty()
                &&& w.unwritten() == Seq::<u8>::empty()
            },
    {
        let id: u64 = self.id;
        self.id = id + 1;
        let file = self.file(id);
        proof {
            text::lemma_decimal_plain(id as nat);
            path::lemma_joined_name(self.path@, text::decimal_text(id as nat));
        }
        WalWriter::open(file.as_str())
    }

    /// Where the log with this number is.
    pub fn file(&self, id: u64) -> (r: String)
        ensures
            r@ == path::joined(self.dir(), text::decimal_text(id as nat)),
    {
        let name = text::decimal(id);
        path::join(self.path.as_str(), name.as_str())
    }

    /// The directory of the logs.
    pub fn dir_path(&self) -> (r: &str)
        ensures
            r@ == self.dir(),
    {
        self.path.as_str()
    }

    /// Whether there is a number left for another log.
    pub fn has_room(&self) -> (r: bool)
        ensures
            r == (self.next_id() < u64::MAX),
    {
        self.id < u64::MAX
    }
}

/// What is left of the logs of these writes after a crash.
pub open spec fn crashed_logs(
    ids: Seq<u64>,
    ws: Seq<Seq<Entry>>,
    cuts: Seq<int>,
) -> Seq<(Seq<char>, Seq<u8>)> {
    Seq::new(
        ids.len(),
        |i: int| (text::decimal_text(ids[i] as nat), layout::payload(ws[i]).take(cuts[i])),
    )
}

/// The writes of each log that are whole.
pub open spec fn whole_writes(ws: Seq<Seq<Entry>>, cuts: Seq<int>) -> Seq<Seq<Entry>> {
    Seq::new(ws.len(), |i: int| ws[i].take(plain::whole_entries(ws[i], cuts[i]) as int))
}

/// Whether no log is cut off behind the length of a key: each ends with a whole
/// write, or with at most one byte of the next.
pub open spec fn cleanly_cut(ws: Seq<Seq<Entry>>, cuts: Seq<int>) -> bool {
    forall|i: int| 0 <= i < ws.len() ==> plain::torn_bytes(#[trigger] ws[i], cuts[i]) < 2
}

/// When no log is cut off behind the length of a key, opening what a crash leaves of
/// the logs of a collection gives back for each log a table with the writes that
/// are whole. Otherwise the collection cannot be opened.
pub proof fn law_restore(ids: Seq<u64>, ws: Seq<Seq<Entry>>, cuts: Seq<int>)
    requires
        ids.len() == ws.len() == cuts.len(),
        forall|i: int| 0 <= i < ws.len() ==> wal::all_fit(#[trigger] ws[i]),
        forall|i: int|
            0 <= i < ws.len() ==> 0 <= #[trigger] cuts[i] <= layout::payload(ws[i]).len(),
    ensures
        !cleanly_cut(ws, cuts) ==> restored(crashed_logs(ids, ws, cuts)) == Err::<
            RestoredView,
            Trouble,
        >(Trouble::Log(Fault::Eof)),
        cleanly_cut(ws, cuts) ==> (restored(crashed_logs(ids, ws, cuts)) matches Ok(v) && {
            &&& v.tables.len() == ids.len()
            &&& forall|i: int| 0 <= i < ids.len() ==> (#[trigger] v.tables[i]).0 == ids[i]
            &&& restored_layers(v) == layers::tables_of_writes(
                layers::all_stored(whole_writes(ws, cuts)),
            )
        }),
    decreases ids.len(),
{
    let ls = crashed_logs(ids, ws, cuts);
    let target = layers::tables_of_writes(layers::all_stored(whole_writes(ws, cuts)));
    if ids.len() == 0 {
        assert(restored_layers(restored(ls)->Ok_0) =~= target);
    } else {
        let (pids, pws, pcuts) = (ids.drop_last(), ws.drop_last(), cuts.drop_last());
        assert forall|i: int| 0 <= i < pws.len() implies wal::all_fit(#[trigger] pws[i]) by {
            assert(pws[i] == ws[i]);
        }
        assert forall|i: int| 0 <= i < pws.len() implies 0 <= #[trigger] pcuts[i]
            <= layout::payload(pws[i]).len() by {
            assert(pcuts[i] == cuts[i] && pws[i] == ws[i]);
        }
        law_restore(pids, pws, pcuts);
        assert(ls.drop_last() =~= crashed_logs(pids, pws, pcuts));
        let n = ids.len() - 1;
        assert(0 <= cuts[n] <= layout::payload(ws[n]).len());
        assert(wal::all_fit(ws[n]));
        plain::law_torn_log(ws[n], cuts[n]);
        text::law_decimal_round_trip(ids[n] as nat, u64::MAX as nat);
        if !cleanly_cut(pws, pcuts) {
            let i = choose|i: int|
                0 <= i < pws.len() && !(plain::torn_bytes(#[trigger] pws[i], pcuts[i]) < 2);
            assert(plain::torn_bytes(ws[i], cuts[i]) >= 2);
        } else if plain::torn_bytes(ws[n], cuts[n]) < 2 {
            assert forall|i: int| 0 <= i < ws.len() implies plain::torn_bytes(
                #[trigger] ws[i],
                cuts[i],
            ) < 2 by {
                if i < n {
                    assert(plain::torn_bytes(pws[i], pcuts[i]) < 2);
                }
            }
            let (p, v) = (restored(ls.drop_last())->Ok_0, restored(ls)->Ok_0);
            assert forall|i: int| 0 <= i < ids.len() implies (#[trigger] v.tables[i]).0
                == ids[i] by {
                if i < n {
                    assert(v.tables[i] == p.tables[i]);
                    assert(pids[i] == ids[i]);
                }
            }
            let tables = restored_layers(v);
            assert forall|i: int| 0 <= i < tables.len() implies tables[i] == target[i] by {
                if i < n {
                    assert(tables[i] == restored_layers(p)[i]);
                    assert(whole_writes(pws, pcuts)[i] == whole_writes(ws, cuts)[i]);
                }
            }
            assert(tables =~= target);
        }
    }
}

/// Whatever logs give back, no version is above the highest sequence number that
/// is reported.
pub proof fn law_restored_sequences(ls: Seq<(Seq<char>, Seq<u8>)>)
    requires
        restored(ls) is Ok,
    ensures
        layers::at_most(restored_layers(restored(ls)->Ok_0), restored(ls)->Ok_0.max_seq),
    decreases ls.len(),
{
    let v = restored(ls)->Ok_0;
    let tables = restored_layers(v);
    if ls.len() > 0 {
        law_restored_sequences(ls.drop_last());
        let p = restored(ls.drop_last())->Ok_0;
        let es = plain::entries_from(ls.last().1, 0);
        logs::lemma_highest(p.max_seq, es);
        assert forall|i: int, k: KeyView|
            0 <= i < tables.len() && #[trigger] tables[i].contains_key(k) implies k.seq
            <= v.max_seq by {
            if i < p.tables.len() {
                assert(restored_layers(p)[i] == tables[i]);
            } else {
                layers::lemma_put_all_keys(Map::empty(), es, k);
                let j = choose|j: int| 0 <= j < es.len() && (#[trigger] es[j]).0 == k;
                assert(es[j].0.seq <= v.max_seq);
            }
        }
    }
}

/// Logs are restored only if each has a number for its name and is not cut off within an
/// entry, and each then gives a table with its entries, in the order of the logs.
pub proof fn law_no_log_is_passed_over(ls: Seq<(Seq<char>, Seq<u8>)>, i: int)
    requires
        restored(ls) is Ok,
        0 <= i < ls.len(),
    ensures
        restored(ls)->Ok_0.tables.len() == ls.len(),
        text::parsed_number(ls[i].0, 0xFFFF_FFFF_FFFF_FFFF) == Some(
            restored(ls)->Ok_0.tables[i].0 as nat,
        ),
        !plain::cut_from(ls[i].1, 0),
        restored(ls)->Ok_0.tables[i].1 == logs::put_all(
            Map::empty(),
            plain::entries_from(ls[i].1, 0),
        ),
    decreases ls.len(),
{
    let prev = ls.drop_last();
    let v = restored(prev)->Ok_0;
    if prev.len() > 0 {
        law_no_log_is_passed_over(prev, if i < prev.len() { i } else { 0 });
    } else {
        assert(v.tables.len() == 0);
    }
    let w = restored(ls)->Ok_0;
    if i < prev.len() {
        assert(w.tables[i] == v.tables[i]);
        assert(prev[i] == ls[i]);
    } else {
        assert(w.tables[i] == w.tables.last());
    }
}

} // verus!
