//! The storage: writes go to a log and a table in memory, full tables are frozen,
//! and frozen tables are flushed to disk.

use vstd::multiset::Multiset;
use vstd::prelude::*;
use vstd::string::*;

use crate::common::error::{DbError, DbResult, Fault};
use crate::common::key::{Key, KeyView};
use crate::common::lookup::{Lookup, LookupView};
use crate::common::path;
use crate::common::text;
use crate::common::value::{Value, ValueView};
use crate::common::versions;
use crate::memtable::{MemTable, MAX_SIZE};
use crate::sstable::scan::compaction;
use crate::sstable::scan::table as scan_table;
use crate::sstable::table;
use crate::sstable::table::SSTable;
use crate::storage::pins::Pins;
use crate::storage::state::State;
use crate::storage::storage::DiskStorage;
use crate::storage::wal::Wal;
use crate::wal::writer;
use crate::wal::CmdView;

pub mod layers;
pub mod levels;
pub mod pins;
pub mod state;
pub mod storage;
pub mod wal;

verus! {

/// The state of a store, its logs, and the records that wait to be written to
/// files.
pub struct Storage {
    state: State,
    wal: Wal,
    retired: Vec<(String, Vec<u8>)>,
    shutdown: bool,
    pins: Pins,
}

/// The table that is to replace a table in memory.
pub struct Flush {
    /// The number of the table in memory, which is that of its log.
    pub log: u64,
    /// The table, if there is anything to write.
    pub table: Option<SSTable>,
}

/// Whether two states hold the same tables.
pub open spec fn same_tables(a: State, b: State) -> bool {
    &&& a.mem_table == b.mem_table
    &&& a.frozen == b.frozen
    &&& a.storage == b.storage
}

/// Whether `b` is `a` once the table in memory is frozen and the log `id` begun.
pub open spec fn froze(a: State, b: State, id: u64) -> bool {
    &&& b.wal.name() == text::decimal_text(id as nat)
    &&& b.wal.log() == Seq::<u8>::empty()
    &&& b.wal.unwritten() == Seq::<u8>::empty()
    &&& b.mem_table@ == Map::<KeyView, ValueView>::empty()
    &&& b.mem_table.number() == id
    &&& b.mem_table.usage() == 0
    &&& b.mem_table.bytes() == 0
    &&& b.mem_table.limit() == MAX_SIZE
    &&& b.frozen@ == seq![a.mem_table] + a.frozen@
    &&& b.storage == a.storage
}

/// What a flush writes of the oldest frozen table: what readers at or above the
/// watermark need, deletion marks included.
pub open spec fn flush_of(s: State, watermark: u64) -> Seq<versions::Entry> {
    compaction::kept(None, s.frozen@.last().entries(), false, watermark)
}

/// Whether `b` is `a` once its oldest frozen table has been flushed to `t`.
pub open spec fn flushed(a: State, b: State, watermark: u64, t: Option<SSTable>) -> bool {
    let ks = flush_of(a, watermark);
    &&& a.frozen@.len() > 0
    &&& b.frozen@ == a.frozen@.drop_last()
    &&& b.mem_table == a.mem_table
    &&& b.wal == a.wal
    &&& match t {
        Some(t) => {
            &&& table::is_table(ks, t.bytes(), t.meta@)
            &&& b.storage.order() == seq![t] + a.storage.order()
        },
        None => ks.len() == 0 && b.storage.order() == a.storage.order(),
    }
}

/// Whether `b` is `a` once its oldest frozen table has been flushed to `t`, which
/// has the next number of a table.
pub open spec fn flushed_next(a: State, b: State, watermark: u64, t: Option<SSTable>) -> bool {
    &&& flushed(a, b, watermark, t)
    &&& b.storage.dir() == a.storage.dir()
    &&& b.storage.next_id() == a.storage.next_id() + 1
    &&& b.storage.loaded_seq() == a.storage.loaded_seq()
    &&& match t {
        Some(_) => storage::one_more_at_l0(a.storage, b.storage),
        None => storage::same_levels(a.storage, b.storage),
    }
    &&& t matches Some(t) ==> t.meta.path@ == path::joined(
        a.storage.dir(),
        storage::table_name(0, a.storage.next_id()),
    )
}

/// Whether `b` is `a` once its oldest frozen table could not be flushed: only the
/// number of the table is used up.
pub open spec fn unflushed(a: State, b: State) -> bool {
    &&& b.wal == a.wal
    &&& b.mem_table == a.mem_table
    &&& b.frozen == a.frozen
    &&& b.storage.order() == a.storage.order()
    &&& b.storage.dir() == a.storage.dir()
    &&& b.storage.next_id() == a.storage.next_id() + 1
    &&& b.storage.loaded_seq() == a.storage.loaded_seq()
    &&& storage::same_levels(a.storage, b.storage)
}

impl Storage {
    /// The state.
    pub closed spec fn state(&self) -> State {
        self.state
    }

    /// The directory of the logs.
    pub closed spec fn log_dir(&self) -> Seq<char> {
        self.wal.dir()
    }

    /// The number of the next log.
    pub closed spec fn next_log(&self) -> u64 {
        self.wal.next_id()
    }

    /// The records of earlier logs that wait to be written: their files and the
    /// bytes.
    pub closed spec fn waiting(&self) -> Seq<(Seq<char>, Seq<u8>)> {
        Seq::new(self.retired@.len(), |i: int| (self.retired@[i].0@, self.retired@[i].1@))
    }

    /// Whether the store is being shut down.
    pub closed spec fn stopping(&self) -> bool {
        self.shutdown
    }

    /// The tables that were flushed and are kept for readers.
    pub closed spec fn pins(&self) -> Pins {
        self.pins
    }

    /// The versions in memory for a reader that began when `since` tables had been
    /// flushed, the newest layer first: those of the state, and the tables that
    /// were flushed after it began.
    pub open spec fn memory_since(&self, since: u64) -> Seq<layers::Versions> {
        self.state().memory() + state::memory_of(self.pins().tables(since))
    }

    /// What such a reader is told under `user` at `snap`: what the first table that
    /// knows the key says, those in memory before those on disk.
    pub open spec fn finds_since(&self, user: Seq<char>, snap: u64, since: u64) -> Result<
        Option<Seq<char>>,
        Fault,
    > {
        match layers::read(self.memory_since(since), user, snap) {
            LookupView::Absent => match storage::disk_get(
                self.state().storage.order(),
                user,
                snap,
            ) {
                Ok(l) => Ok(l.answer()),
                Err(f) => Err(f),
            },
            l => Ok(l.answer()),
        }
    }

    /// The tables are in good order.
    pub closed spec fn wf(&self) -> bool {
        self.state.wf() && self.pins.wf()
    }

    /// The tables of a store in good order are in good order.
    pub proof fn lemma_wf(&self)
        requires
            self.wf(),
        ensures
            self.state().wf(),
            self.pins().wf(),
    {
    }

    /// A store with a new log.
    pub fn new(wal: Wal, storage: DiskStorage, tables: Vec<MemTable>) -> (r: DbResult<Self>)
        requires
            storage.wf(),
            forall|i: int| 0 <= i < tables@.len() ==> (#[trigger] tables@[i]).wf(),
            wal.next_id() < u64::MAX,
        ensures
            r matches Ok(s) && {
                &&& s.wf()
                &&& s.state().wal.name() == text::decimal_text(wal.next_id() as nat)
                &&& s.state().logged(Seq::empty())
                &&& s.state().wal.unwritten() == Seq::<u8>::empty()
                &&& s.state().mem_table.number() == wal.next_id()
                &&& s.state().mem_table@ == Map::<KeyView, ValueView>::empty()
                &&& s.state().mem_table.usage() == 0
                &&& s.state().mem_table.bytes() == 0
                &&& s.state().mem_table.limit() == MAX_SIZE
                &&& s.state().frozen@ == tables@
                &&& s.state().storage == storage
                &&& s.log_dir() == wal.dir()
                &&& s.next_log() == wal.next_id() + 1
                &&& s.waiting() == Seq::<(Seq<char>, Seq<u8>)>::empty()
                &&& !s.stopping()
                &&& s.pins().kept() == Seq::<(u64, MemTable)>::empty()
                &&& s.pins().flushes() == 0
                &&& s.pins().holders() == Multiset::<u64>::empty()
            },
    {
        let mut logs = wal;
        let writer = match logs.new_writer() {
            Ok(w) => w,
            Err(e) => {
                return Err(e);
            },
        };
        proof {
            text::law_decimal_round_trip(wal.next_id() as nat, u64::MAX as nat);
        }
        match State::new(writer, tables, storage) {
            Ok(state) => {
                let s = Storage {
                    state,
                    wal: logs,
                    retired: Vec::new(),
                    shutdown: false,
                    pins: Pins::new(),
                };
                assert(s.waiting() =~= Seq::<(Seq<char>, Seq<u8>)>::empty());
                Ok(s)
            },
            Err(e) => Err(e),
        }
    }

    /// Logs a transaction that writes `batch`. Writes that cannot be logged are
    /// refused, and only the beginning of the transaction is logged.
    pub fn log_batch(&mut self, tx_id: u64, batch: &Vec<(Key, Value)>) -> (r: DbResult<()>)
        requires
            old(self).wf(),
        ensures
            final(self).wf(),
            final(self).log_dir() == old(self).log_dir(),
            final(self).next_log() == old(self).next_log(),
            final(self).waiting() == old(self).waiting(),
            final(self).stopping() == old(self).stopping(),
            final(self).pins() == old(self).pins(),
            same_tables(final(self).state(), old(self).state()),
            final(self).state().wal.name() == old(self).state().wal.name(),
            r is Ok <==> CmdView::Batch(tx_id, scan_table::pairs(batch@)).fits(),
            r is Ok ==> {
                let bytes = writer::commit_bytes(tx_id, scan_table::pairs(batch@));
                &&& final(self).state().wal.log() == old(self).state().wal.log() + bytes
                &&& final(self).state().wal.unwritten() == old(self).state().wal.unwritten() + bytes
            },
            r matches Err(e) ==> e is InvalidInt && refused_in(
                old(self).state(),
                final(self).state(),
                tx_id,
            ),
    {
        let r = self.state.wal.append_commit(tx_id, batch);
        proof {
            if r is Err {
                let (a, b) = (old(self).state, self.state);
                assert forall|bs: Seq<wal::Batch>|
                    a.logged(bs) && wal::fresh(bs, tx_id) implies #[trigger] b.logged(
                    bs.push((tx_id, None)),
                ) by {
                    lemma_logged_begin(a, b, bs, tx_id);
                }
            }
        }
        r
    }

    /// Writes entries to the table in memory.
    pub fn apply_batch(&mut self, batch: Vec<(Key, Value)>)
        requires
            old(self).wf(),
        ensures
            final(self).wf(),
            final(self).log_dir() == old(self).log_dir(),
            final(self).next_log() == old(self).next_log(),
            final(self).waiting() == old(self).waiting(),
            final(self).stopping() == old(self).stopping(),
            final(self).pins() == old(self).pins(),
            final(self).state().wal == old(self).state().wal,
            final(self).state().frozen == old(self).state().frozen,
            final(self).state().storage == old(self).state().storage,
            wal::took(
                old(self).state().mem_table,
                final(self).state().mem_table,
                scan_table::pairs(batch@),
            ),
            final(self).state().layers() == layers::wrote(
                old(self).state().layers(),
                scan_table::pairs(batch@),
            ),
    {
        let _ = wal::put_entries(&mut self.state.mem_table, batch, 0);
        assert(self.state.layers() =~= layers::wrote(
            old(self).state.layers(),
            scan_table::pairs(batch@),
        ));
    }

    /// Logs a transaction that writes `batch`, then writes it to the table in
    /// memory. What cannot be logged is refused, and nothing of it is written but
    /// the beginning of the transaction in the log.
    pub fn set_batch(&mut self, tx_id: u64, batch: Vec<(Key, Value)>) -> (r: DbResult<()>)
        requires
            old(self).wf(),
        ensures
            final(self).wf(),
            final(self).log_dir() == old(self).log_dir(),
            final(self).next_log() == old(self).next_log(),
            final(self).waiting() == old(self).waiting(),
            final(self).stopping() == old(self).stopping(),
            final(self).pins() == old(self).pins(),
            set_in(r, old(self).state(), final(self).state(), tx_id, scan_table::pairs(batch@)),
    {
        let ghost es = scan_table::pairs(batch@);
        match self.log_batch(tx_id, &batch) {
            Ok(_) => {},
            Err(e) => {
                return Err(e);
            },
        }
        self.apply_batch(batch);
        proof {
            let (a, b) = (old(self).state, self.state);
            assert forall|bs: Seq<wal::Batch>|
                a.logged(bs) && wal::fresh(bs, tx_id) implies #[trigger] b.logged(
                bs.push((tx_id, Some(es))),
            ) by {
                lemma_logged_push(a, b, bs, tx_id, es);
            }
        }
        Ok(())
    }

    /// Logs the beginning of a transaction.
    pub fn begin(&mut self, tx_id: u64) -> (r: DbResult<()>)
        requires
            old(self).wf(),
        ensures
            r is Ok,
            final(self).wf(),
            final(self).log_dir() == old(self).log_dir(),
            final(self).next_log() == old(self).next_log(),
            final(self).waiting() == old(self).waiting(),
            final(self).stopping() == old(self).stopping(),
            final(self).pins() == old(self).pins(),
            same_tables(final(self).state(), old(self).state()),
            writer::appended(
                r,
                old(self).state().wal,
                final(self).state().wal,
                CmdView::TxBegin(tx_id),
            ),
    {
        self.state.begin(tx_id)
    }

    /// Logs the commit of a transaction.
    pub fn commit(&mut self, tx_id: u64) -> (r: DbResult<()>)
        requires
            old(self).wf(),
        ensures
            r is Ok,
            final(self).wf(),
            final(self).log_dir() == old(self).log_dir(),
            final(self).next_log() == old(self).next_log(),
            final(self).waiting() == old(self).waiting(),
            final(self).stopping() == old(self).stopping(),
            final(self).pins() == old(self).pins(),
            same_tables(final(self).state(), old(self).state()),
            writer::appended(
                r,
                old(self).state().wal,
                final(self).state().wal,
                CmdView::TxCommit(tx_id),
            ),
    {
        self.state.commit(tx_id)
    }
}

/// Whether `r` reports that the batch was logged and written, or that it cannot
/// be logged and only the transaction has begun.
pub open spec fn set_in(
    r: DbResult<()>,
    a: State,
    b: State,
    tx_id: u64,
    es: Seq<versions::Entry>,
) -> bool {
    &&& r is Ok <==> CmdView::Batch(tx_id, es).fits()
    &&& r matches Err(e) ==> e is InvalidInt && refused_in(a, b, tx_id)
    &&& r is Ok ==> {
        &&& b.frozen == a.frozen
        &&& b.storage == a.storage
        &&& b.wal.name() == a.wal.name()
        &&& b.wal.log() == a.wal.log() + writer::commit_bytes(tx_id, es)
        &&& b.wal.unwritten() == a.wal.unwritten() + writer::commit_bytes(tx_id, es)
        &&& wal::took(a.mem_table, b.mem_table, es)
        &&& b.layers() == layers::wrote(a.layers(), es)
        &&& forall|bs: Seq<wal::Batch>|
            a.logged(bs) && wal::fresh(bs, tx_id) ==> #[trigger] b.logged(
                bs.push((tx_id, Some(es))),
            )
    }
}

/// Whether `b` is `a` once the writes of a transaction were refused: its beginning
/// is in the log, and nothing else happened.
pub open spec fn refused_in(a: State, b: State, tx_id: u64) -> bool {
    &&& same_tables(a, b)
    &&& writer::begun(a.wal, b.wal, tx_id)
    &&& forall|bs: Seq<wal::Batch>|
        a.logged(bs) && wal::fresh(bs, tx_id) ==> #[trigger] b.logged(bs.push((tx_id, None)))
}

/// A log of batches and the beginning of a transaction is the log of all of them.
pub proof fn lemma_logged_begin(a: State, b: State, bs: Seq<wal::Batch>, tx_id: u64)
    requires
        a.logged(bs),
        wal::fresh(bs, tx_id),
        b.wal.log() == a.wal.log() + CmdView::TxBegin(tx_id).bytes(),
        b.mem_table@ == a.mem_table@,
    ensures
        b.logged(bs.push((tx_id, None))),
{
    let stray: wal::Batch = (tx_id, None);
    let ns = bs.push(stray);
    assert(ns.drop_last() =~= bs);
    let one = wal::one_batch(stray);
    wal::lemma_fit_push(bs, stray);
    crate::wal::lemma_log_join(wal::batch_cmds(bs), one);
    assert(crate::wal::log_bytes(one) =~= CmdView::TxBegin(tx_id).bytes()) by {
        reveal_with_fuel(crate::wal::log_bytes, 2);
        assert(one.drop_last() =~= Seq::<CmdView>::empty());
    }
    assert(wal::batch_entries(ns) =~= wal::batch_entries(bs));
}

/// A log of batches and one more is the log of all of them.
pub proof fn lemma_logged_push(
    a: State,
    b: State,
    bs: Seq<wal::Batch>,
    tx_id: u64,
    es: Seq<versions::Entry>,
)
    requires
        a.logged(bs),
        wal::fresh(bs, tx_id),
        CmdView::Batch(tx_id, es).fits(),
        b.wal.log() == a.wal.log() + writer::commit_bytes(tx_id, es),
        b.mem_table@ == wal::put_all(a.mem_table@, es),
    ensures
        b.logged(bs.push((tx_id, Some(es)))),
{
    let last: wal::Batch = (tx_id, Some(es));
    let ns = bs.push(last);
    assert(ns.drop_last() =~= bs);
    let one = wal::one_batch(last);
    wal::lemma_fit_push(bs, last);
    crate::wal::lemma_log_join(wal::batch_cmds(bs), one);
    assert(crate::wal::log_bytes(one) =~= writer::commit_bytes(tx_id, es)) by {
        reveal_with_fuel(crate::wal::log_bytes, 4);
        assert(one.drop_last() =~= seq![CmdView::TxBegin(tx_id), CmdView::Batch(tx_id, es)]);
        assert(one.drop_last().drop_last() =~= seq![CmdView::TxBegin(tx_id)]);
        assert(one.drop_last().drop_last().drop_last() =~= Seq::<CmdView>::empty());
    }
    wal::lemma_put_all_join(Map::empty(), wal::batch_entries(bs), es);
}

impl Storage {
    /// Freezes the table in memory and starts a new log.
    pub fn force_freeze(&mut self) -> (r: DbResult<()>)
        requires
            old(self).wf(),
            old(self).next_log() < u64::MAX,
        ensures
            r is Ok,
            final(self).wf(),
            froze(old(self).state(), final(self).state(), old(self).next_log()),
            final(self).next_log() == old(self).next_log() + 1,
            final(self).log_dir() == old(self).log_dir(),
            final(self).stopping() == old(self).stopping(),
            final(self).pins() == old(self).pins(),
            final(self).waiting() == old(self).waiting().push(
                (
                    path::joined(old(self).log_dir(), old(self).state().wal.name()),
                    old(self).state().wal.unwritten(),
                ),
            ),
    {
        let ghost before = *self;
        let new_wal = match self.wal.new_writer() {
            Ok(w) => w,
            Err(e) => {
                return Err(e);
            },
        };
        proof {
            text::law_decimal_round_trip(before.wal.next_id() as nat, u64::MAX as nat);
        }
        let id: u64 = match text::parse_u64(new_wal.id()) {
            Ok(id) => id,
            Err(e) => {
                return Err(DbError::from(e));
            },
        };
        let file = path::join(self.wal.dir_path(), self.state.wal.id());
        let bytes = self.state.wal.take_unwritten();
        let ghost head = (file@, bytes@);
        self.retired.push((file, bytes));
        let mut old_table = MemTable::new(id);
        std::mem::swap(&mut old_table, &mut self.state.mem_table);
        self.state.frozen.insert(0, old_table);
        self.state.wal = new_wal;
        proof {
            assert(self.waiting() =~= before.waiting().push(head));
            assert(self.state.frozen@ =~= seq![before.state.mem_table] + before.state.frozen@);
            assert forall|i: int| 0 <= i < self.state.frozen@.len() implies (
            #[trigger] self.state.frozen@[i]).wf() by {
                if i > 0 {
                    assert(self.state.frozen@[i] == before.state.frozen@[i - 1]);
                }
            }
        }
        Ok(())
    }

    /// Freezes the table in memory if it is full.
    pub fn try_freeze(&mut self) -> (r: DbResult<()>)
        requires
            old(self).wf(),
            old(self).next_log() < u64::MAX,
        ensures
            r is Ok,
            frozen_when(
                *old(self),
                *final(self),
                old(self).state().mem_table.usage() >= old(self).state().mem_table.limit(),
            ),
    {
        if !self.state.mem_table.is_full() {
            return Ok(());
        }
        self.force_freeze()
    }

    /// Freezes the table in memory if it is full. No write may be between its
    /// table and its publication, or a flush could drop the older version that is
    /// still visible.
    pub fn freeze_if_full(&mut self) -> (r: DbResult<()>)
        requires
            old(self).wf(),
            old(self).next_log() < u64::MAX,
        ensures
            r is Ok,
            frozen_when(
                *old(self),
                *final(self),
                old(self).state().mem_table.usage() >= old(self).state().mem_table.limit(),
            ),
    {
        if self.state.mem_table.is_full() {
            return self.try_freeze();
        }
        Ok(())
    }

    /// Freezes the table in memory if it holds anything, under the same condition
    /// as [`Storage::freeze_if_full`].
    pub fn freeze_active(&mut self) -> (r: DbResult<()>)
        requires
            old(self).wf(),
            old(self).next_log() < u64::MAX,
        ensures
            r is Ok,
            frozen_when(
                *old(self),
                *final(self),
                old(self).state().mem_table.entries().len() > 0,
            ),
    {
        if !self.state.mem_table.is_empty() {
            return self.force_freeze();
        }
        Ok(())
    }

    /// The state as it is.
    pub fn snapshot(&self) -> (r: &State)
        ensures
            *r == self.state(),
    {
        &self.state
    }

    /// The newest value of `key`.
    pub fn get(&self, key: &str) -> (r: DbResult<Option<String>>)
        requires
            self.wf(),
        ensures
            state::tells(r, self.state().finds(key@, u64::MAX)),
    {
        self.get_snap(key, u64::MAX)
    }

    /// The value of `key` for a reader at `seq`.
    pub fn get_snap(&self, key: &str, seq: u64) -> (r: DbResult<Option<String>>)
        requires
            self.wf(),
        ensures
            state::tells(r, self.state().finds(key@, seq)),
            self.state().sound() ==> (r matches Ok(s) && state::text_of(s) == layers::read(
                self.state().layers(),
                key@,
                seq,
            ).answer()),
    {
        self.state.get_snap(key, seq)
    }

    /// Registers a reader of the state as it is now. The tables that are in memory
    /// now stay readable for it. Returns how many tables have been flushed.
    pub fn pin(&mut self) -> (since: u64)
        requires
            old(self).wf(),
        ensures
            final(self).wf(),
            alike(*old(self), *final(self)),
            since == old(self).pins().flushes(),
            pins::pinned(old(self).pins(), final(self).pins()),
    {
        self.pins.pin()
    }

    /// Takes back the registration of a reader.
    pub fn unpin(&mut self, since: u64)
        requires
            old(self).wf(),
        ensures
            final(self).wf(),
            alike(*old(self), *final(self)),
            pins::unpinned(old(self).pins(), final(self).pins(), since),
    {
        self.pins.unpin(since);
    }

    /// The value of `key` at `seq` for a reader that began when `since` tables had
    /// been flushed.
    pub fn get_since(&self, key: &str, seq: u64, since: u64) -> (r: DbResult<Option<String>>)
        requires
            self.wf(),
        ensures
            state::tells(r, self.finds_since(key@, seq, since)),
    {
        proof {
            layers::lemma_read_join(
                self.state.memory(),
                state::memory_of(self.pins.tables(since)),
                key@,
                seq,
            );
        }
        match self.state.get_memory(key, seq) {
            Lookup::Found(value) => {
                return Ok(Some(value));
            },
            Lookup::Deleted => {
                return Ok(None);
            },
            Lookup::Absent => {},
        }
        match self.pins.get_since(key, seq, since) {
            Lookup::Found(value) => {
                return Ok(Some(value));
            },
            Lookup::Deleted => {
                return Ok(None);
            },
            Lookup::Absent => {},
        }
        match self.state.storage.get_snap(key, seq) {
            Ok(Lookup::Found(value)) => Ok(Some(value)),
            Ok(_) => Ok(None),
            Err(e) => Err(e),
        }
    }

    /// Whether there is a table in memory that waits to be flushed.
    pub fn has_frozen(&self) -> (r: bool)
        ensures
            r == (self.state().frozen@.len() > 0),
    {
        self.state.frozen.len() > 0
    }

    /// Makes the table that is to replace the oldest frozen table, with what
    /// readers at or above the watermark need. Nothing changes before the flush is
    /// completed.
    pub fn prepare_flush(&mut self, read_ts_watermark: u64) -> (r: DbResult<Option<Flush>>)
        requires
            old(self).wf(),
            old(self).state().storage.next_id() < u64::MAX,
        ensures
            old(self).state().frozen@.len() > 0 && versions::are_small(
                old(self).state().frozen@.last().entries(),
            ) ==> r is Ok,
            final(self).wf(),
            final(self).log_dir() == old(self).log_dir(),
            final(self).next_log() == old(self).next_log(),
            final(self).waiting() == old(self).waiting(),
            final(self).stopping() == old(self).stopping(),
            final(self).pins() == old(self).pins(),
            old(self).state().frozen@.len() == 0 ==> *final(self) == *old(self) && (r matches Ok(
                f,
            ) && f is None),
            old(self).state().frozen@.len() > 0 ==> {
                &&& unflushed(old(self).state(), final(self).state())
                &&& prepared(r, old(self).state(), read_ts_watermark)
            },
    {
        if self.state.frozen.len() == 0 {
            return Ok(None);
        }
        let last: usize = self.state.frozen.len() - 1;
        let log: u64 = self.state.frozen[last].id();
        match self.state.storage.prepare_l0(&self.state.frozen[last], read_ts_watermark) {
            Ok(table) => Ok(Some(Flush { log, table })),
            Err(e) => Err(e),
        }
    }

    /// Puts the table of a flush in the place of the table in memory that it was
    /// made from.
    pub fn complete_flush(&mut self, flush: Flush)
        requires
            old(self).wf(),
            flush.table matches Some(t) ==> t.wf(),
            old(self).pins().flushes() < u64::MAX,
        ensures
            final(self).wf(),
            final(self).log_dir() == old(self).log_dir(),
            final(self).next_log() == old(self).next_log(),
            final(self).waiting() == old(self).waiting(),
            final(self).stopping() == old(self).stopping(),
            completed(old(self).state(), final(self).state(), flush),
            retired(*old(self), *final(self), flush.log),
    {
        match flush.table {
            Some(t) => {
                self.state.storage.install_l0(t);
            },
            None => {},
        }
        self.retire(flush.log);
    }

    /// Drops the oldest frozen table from the state if it has this number. It is
    /// kept as long as there are readers that began before.
    fn retire(&mut self, id: u64)
        requires
            old(self).wf(),
            old(self).pins().flushes() < u64::MAX,
        ensures
            final(self).wf(),
            final(self).wal == old(self).wal,
            final(self).retired == old(self).retired,
            final(self).shutdown == old(self).shutdown,
            final(self).state.wal == old(self).state.wal,
            final(self).state.mem_table == old(self).state.mem_table,
            final(self).state.storage == old(self).state.storage,
            final(self).state.frozen@ == (if old(self).state.frozen@.len() > 0 && old(
                self,
            ).state.frozen@.last().number() == id {
                old(self).state.frozen@.drop_last()
            } else {
                old(self).state.frozen@
            }),
            retired(*old(self), *final(self), id),
    {
        let n: usize = self.state.frozen.len();
        if n > 0 && self.state.frozen[n - 1].id() == id {
            match self.state.frozen.pop() {
                Some(table) => {
                    self.pins.keep(table);
                },
                None => {},
            }
        }
    }

    /// Flushes the oldest frozen table: writes what readers at or above the
    /// watermark need of it into a table of level 0, and drops it from memory.
    /// Returns whether there was a frozen table. Its log is no longer needed then.
    pub fn flush_oldest(&mut self, read_ts_watermark: u64) -> (r: DbResult<bool>)
        requires
            old(self).wf(),
            old(self).state().storage.next_id() < u64::MAX,
            old(self).pins().flushes() < u64::MAX,
        ensures
            old(self).state().frozen@.len() > 0 && versions::are_small(
                old(self).state().frozen@.last().entries(),
            ) ==> r is Ok,
            final(self).wf(),
            final(self).log_dir() == old(self).log_dir(),
            final(self).next_log() == old(self).next_log(),
            final(self).waiting() == old(self).waiting(),
            final(self).stopping() == old(self).stopping(),
            match r {
                Ok(true) => {
                    &&& exists|t: Option<SSTable>| #[trigger]
                        flushed_next(old(self).state(), final(self).state(), read_ts_watermark, t)
                    &&& pins::keeps(
                        old(self).pins(),
                        final(self).pins(),
                        old(self).state().frozen@.last(),
                    )
                },
                Ok(false) => old(self).state().frozen@.len() == 0 && *final(self) == *old(self),
                Err(e) => {
                    &&& final(self).pins() == old(self).pins()
                    &&& e is InvalidInt
                    &&& old(self).state().frozen@.len() > 0
                    &&& storage::unwritable(flush_of(old(self).state(), read_ts_watermark))
                    &&& unflushed(old(self).state(), final(self).state())
                },
            },
    {
        match self.prepare_flush(read_ts_watermark) {
            Err(e) => Err(e),
            Ok(None) => Ok(false),
            Ok(Some(flush)) => {
                let ghost t = flush.table;
                self.complete_flush(flush);
                assert(flushed_next(old(self).state(), self.state(), read_ts_watermark, t));
                Ok(true)
            },
        }
    }

    /// Hands out what is to be written to the logs: for each log its file and the
    /// records to append to it. The last one is the log that is written to now.
    pub fn take_writes(&mut self) -> (r: Vec<(String, Vec<u8>)>)
        requires
            old(self).wf(),
        ensures
            final(self).wf(),
            final(self).log_dir() == old(self).log_dir(),
            final(self).next_log() == old(self).next_log(),
            final(self).stopping() == old(self).stopping(),
            final(self).pins() == old(self).pins(),
            same_tables(final(self).state(), old(self).state()),
            final(self).waiting() == Seq::<(Seq<char>, Seq<u8>)>::empty(),
            final(self).state().wal.name() == old(self).state().wal.name(),
            final(self).state().wal.log() == old(self).state().wal.log(),
            final(self).state().wal.unwritten() == Seq::<u8>::empty(),
            Seq::new(r@.len(), |i: int| (r@[i].0@, r@[i].1@)) == old(self).waiting().push(
                (
                    path::joined(old(self).log_dir(), old(self).state().wal.name()),
                    old(self).state().wal.unwritten(),
                ),
            ),
    {
        let ghost before = *self;
        let mut out: Vec<(String, Vec<u8>)> = Vec::new();
        std::mem::swap(&mut out, &mut self.retired);
        let file = path::join(self.wal.dir_path(), self.state.wal.id());
        let bytes = self.state.wal.take_unwritten();
        let ghost tail = (file@, bytes@);
        out.push((file, bytes));
        assert(self.waiting() =~= Seq::<(Seq<char>, Seq<u8>)>::empty());
        assert(Seq::new(out@.len(), |i: int| (out@[i].0@, out@[i].1@)) =~= before.waiting().push(
            tail,
        ));
        out
    }

    /// The file of the log with this number.
    pub fn log_file(&self, id: u64) -> (r: String)
        ensures
            r@ == path::joined(self.log_dir(), text::decimal_text(id as nat)),
    {
        self.wal.file(id)
    }

    /// Whether there is a number left for another log.
    pub fn has_log_room(&self) -> (r: bool)
        ensures
            r == (self.next_log() < u64::MAX),
    {
        self.wal.has_room()
    }

    /// Whether there are numbers left for another log, another table and another
    /// flush.
    pub fn has_room(&self) -> (r: bool)
        ensures
            r == (self.next_log() < u64::MAX && self.state().storage.next_id() < u64::MAX
                && self.pins().flushes() < u64::MAX),
    {
        self.wal.has_room() && self.state.storage.has_room() && self.pins.has_room()
    }

    /// Whether the store is being shut down.
    pub fn is_shutdown(&self) -> (r: bool)
        ensures
            r == self.stopping(),
    {
        self.shutdown
    }

    /// Marks the store as being shut down.
    pub fn begin_shutdown(&mut self)
        requires
            old(self).wf(),
        ensures
            final(self).wf(),
            final(self).stopping(),
            final(self).pins() == old(self).pins(),
            final(self).state() == old(self).state(),
            final(self).log_dir() == old(self).log_dir(),
            final(self).next_log() == old(self).next_log(),
            final(self).waiting() == old(self).waiting(),
    {
        self.shutdown = true;
    }
}

/// Whether two stores differ at most in what they keep for readers.
pub open spec fn alike(a: Storage, b: Storage) -> bool {
    &&& b.state() == a.state()
    &&& b.log_dir() == a.log_dir()
    &&& b.next_log() == a.next_log()
    &&& b.waiting() == a.waiting()
    &&& b.stopping() == a.stopping()
}

/// What is kept for readers once the oldest frozen table has been dropped from the
/// state if it has the number `id`.
pub open spec fn retired(a: Storage, b: Storage, id: u64) -> bool {
    if a.state().frozen@.len() > 0 && a.state().frozen@.last().number() == id {
        pins::keeps(a.pins(), b.pins(), a.state().frozen@.last())
    } else {
        b.pins() == a.pins()
    }
}

/// Whether `b` is `a` with its table in memory frozen when `when` holds, and `a`
/// otherwise.
pub open spec fn frozen_when(a: Storage, b: Storage, when: bool) -> bool {
    &&& b.wf()
    &&& b.log_dir() == a.log_dir()
    &&& b.stopping() == a.stopping()
    &&& b.pins() == a.pins()
    &&& !when ==> b == a
    &&& when ==> {
        &&& froze(a.state(), b.state(), a.next_log())
        &&& b.next_log() == a.next_log() + 1
        &&& b.waiting() == a.waiting().push(
            (path::joined(a.log_dir(), a.state().wal.name()), a.state().wal.unwritten()),
        )
    }
}

/// Whether `b` is `a` with the table of a flush on disk, and without the table in
/// memory that it was made from, if that is the oldest frozen one.
pub open spec fn completed(a: State, b: State, flush: Flush) -> bool {
    &&& b.wal == a.wal
    &&& b.mem_table == a.mem_table
    &&& b.storage.dir() == a.storage.dir()
    &&& b.storage.next_id() == a.storage.next_id()
    &&& b.storage.loaded_seq() == a.storage.loaded_seq()
    &&& match flush.table {
        Some(_) => storage::one_more_at_l0(a.storage, b.storage),
        None => storage::same_levels(a.storage, b.storage),
    }
    &&& b.storage.order() == (match flush.table {
        Some(t) => seq![t] + a.storage.order(),
        None => a.storage.order(),
    })
    &&& b.frozen@ == (if a.frozen@.len() > 0 && a.frozen@.last().number() == flush.log {
        a.frozen@.drop_last()
    } else {
        a.frozen@
    })
}

/// Whether `r` is the flush of the oldest frozen table of `s`.
pub open spec fn prepared(r: DbResult<Option<Flush>>, s: State, watermark: u64) -> bool {
    let ks = flush_of(s, watermark);
    match r {
        Ok(Some(f)) => {
            &&& f.log == s.frozen@.last().number()
            &&& storage::flushed_table(
                Ok(f.table),
                path::joined(s.storage.dir(), storage::table_name(0, s.storage.next_id())),
                ks,
            )
        },
        Ok(None) => false,
        Err(e) => storage::flushed_table(
            Err(e),
            path::joined(s.storage.dir(), storage::table_name(0, s.storage.next_id())),
            ks,
        ),
    }
}

/// Freezing the table in memory puts an empty layer on top.
pub proof fn lemma_froze(a: State, b: State, id: u64)
    requires
        froze(a, b, id),
    ensures
        b.layers() == seq![Map::<KeyView, ValueView>::empty()] + a.layers(),
        b.logged(Seq::empty()),
{
    assert(state::memory_of(b.frozen@) =~= seq![a.mem_table@] + state::memory_of(a.frozen@));
    assert(b.layers() =~= seq![Map::<KeyView, ValueView>::empty()] + a.layers());
}

/// Freezing changes no answer.
pub proof fn law_freeze(a: State, b: State, id: u64, user: Seq<char>, snap: u64)
    requires
        froze(a, b, id),
    ensures
        layers::read(b.layers(), user, snap) == layers::read(a.layers(), user, snap),
        b.finds(user, snap) == a.finds(user, snap),
{
    lemma_froze(a, b, id);
    layers::law_freeze_keeps_answers(a.layers(), user, snap);
    layers::law_freeze_keeps_answers(a.memory(), user, snap);
    assert(b.memory() =~= seq![Map::<KeyView, ValueView>::empty()] + a.memory());
}

/// How the layers divide around the table that is flushed.
proof fn lemma_flushed(a: State, b: State, watermark: u64, t: Option<SSTable>)
    requires
        a.wf(),
        flushed(a, b, watermark, t),
    ensures
        ({
            let newer = seq![a.mem_table@] + state::memory_of(a.frozen@.drop_last());
            let es = a.frozen@.last().entries();
            let older = layers::contents(a.storage.order());
            &&& versions::sorted(es)
            &&& a.layers() == newer + (seq![versions::map_of(es)] + older)
            &&& b.layers() == newer + (match t {
                Some(t) => seq![layers::content(t)] + older,
                None => older,
            })
        }),
{
    let newer = seq![a.mem_table@] + state::memory_of(a.frozen@.drop_last());
    let last = a.frozen@.last();
    let older = layers::contents(a.storage.order());
    assert(a.frozen@[a.frozen@.len() - 1].wf());
    last.lemma_entries();
    assert(a.layers() =~= newer + (seq![last@] + older));
    match t {
        Some(t) => {
            assert(layers::contents(b.storage.order()) =~= seq![layers::content(t)] + older);
        },
        None => {},
    }
    assert(b.layers() =~= newer + (match t {
        Some(t) => seq![layers::content(t)] + older,
        None => older,
    }));
}

/// A flush changes no answer that a reader at or above the watermark gets, but
/// that an empty text comes back as a deletion mark.
pub proof fn law_flush(
    a: State,
    b: State,
    watermark: u64,
    t: Option<SSTable>,
    user: Seq<char>,
    snap: u64,
)
    requires
        a.wf(),
        flushed(a, b, watermark, t),
        watermark <= snap,
    ensures
        layers::same_after_flush(
            layers::read(a.layers(), user, snap),
            layers::read(b.layers(), user, snap),
        ),
        a.sound() ==> b.sound(),
{
    lemma_flushed(a, b, watermark, t);
    versions::lemma_sorted_ascending(a.frozen@.last().entries());
    layers::law_flush_keeps_answers(
        seq![a.mem_table@] + state::memory_of(a.frozen@.drop_last()),
        a.frozen@.last().entries(),
        layers::contents(a.storage.order()),
        watermark,
        t,
        user,
        snap,
    );
    if a.sound() {
        lemma_flush_sound(a, b, watermark, t);
    }
}

/// The table that a flush adds was written whole.
proof fn lemma_flush_sound(a: State, b: State, watermark: u64, t: Option<SSTable>)
    requires
        flushed(a, b, watermark, t),
        a.sound(),
    ensures
        b.sound(),
{
    let ts = b.storage.order();
    assert forall|i: int| 0 <= i < ts.len() implies layers::sound(#[trigger] ts[i]) by {
        match t {
            Some(t) => {
                if i > 0 {
                    assert(ts[i] == a.storage.order()[i - 1]);
                }
            },
            None => {},
        }
    }
}

/// A flush keeps the layers in order.
pub proof fn law_flush_order(a: State, b: State, watermark: u64, t: Option<SSTable>, top: u64)
    requires
        a.wf(),
        flushed(a, b, watermark, t),
        layers::recent_first(a.layers()),
        layers::at_most(a.layers(), top),
    ensures
        layers::recent_first(b.layers()),
        layers::at_most(b.layers(), top),
{
    lemma_flushed(a, b, watermark, t);
    versions::lemma_sorted_ascending(a.frozen@.last().entries());
    layers::law_flush_keeps_order(
        seq![a.mem_table@] + state::memory_of(a.frozen@.drop_last()),
        a.frozen@.last().entries(),
        layers::contents(a.storage.order()),
        watermark,
        t,
        top,
    );
}

/// A reader that begins now reads the state as it is.
pub proof fn law_reader_begins(s: Storage, user: Seq<char>, snap: u64)
    requires
        s.wf(),
    ensures
        s.memory_since(s.pins().flushes()) == s.state().memory(),
        s.finds_since(user, snap, s.pins().flushes()) == s.state().finds(user, snap),
{
    s.lemma_wf();
    s.pins().lemma_now();
    assert(s.memory_since(s.pins().flushes()) =~= s.state().memory());
}

/// Freezing changes nothing for a reader.
pub proof fn law_reader_ignores_freeze(
    a: Storage,
    b: Storage,
    when: bool,
    user: Seq<char>,
    snap: u64,
    since: u64,
)
    requires
        frozen_when(a, b, when),
    ensures
        b.finds_since(user, snap, since) == a.finds_since(user, snap, since),
{
    if when {
        assert(state::memory_of(b.state().frozen@) =~= seq![a.state().mem_table@]
            + state::memory_of(a.state().frozen@));
        assert(b.memory_since(since) =~= seq![Map::<KeyView, ValueView>::empty()]
            + a.memory_since(since));
        layers::law_freeze_keeps_answers(a.memory_since(since), user, snap);
    }
}

/// A flush changes nothing for a reader that began before: the table that was
/// flushed is still there, before the tables on disk.
pub proof fn law_reader_ignores_flush(
    a: Storage,
    b: Storage,
    watermark: u64,
    t: Option<SSTable>,
    user: Seq<char>,
    snap: u64,
    since: u64,
)
    requires
        a.wf(),
        flushed(a.state(), b.state(), watermark, t),
        pins::keeps(a.pins(), b.pins(), a.state().frozen@.last()),
        a.pins().holders().contains(since),
        since <= a.pins().flushes(),
    ensures
        b.finds_since(user, snap, since) == a.finds_since(user, snap, since),
{
    let last = a.state().frozen@.last();
    a.lemma_wf();
    assert(a.pins().holders().len() > 0);
    pins::lemma_kept_first(a.pins(), b.pins(), last, since);
    let frozen = a.state().frozen@;
    assert(frozen =~= frozen.drop_last().push(last));
    assert(b.memory_since(since) =~= a.memory_since(since));
    if layers::read(a.memory_since(since), user, snap) is Absent {
        if let Some(t) = t {
            let es = flush_of(a.state(), watermark);
            let i = frozen.len() as int;
            assert(frozen[i - 1].wf());
            last.lemma_entries();
            assert(a.memory_since(since)[i] == last@);
            layers::lemma_read_absent(a.memory_since(since), user, snap, i);
            layers::lemma_flushed_absent(last.entries(), watermark, t, user, snap);
            assert(b.state().storage.order().drop_first() =~= a.state().storage.order());
        }
    }
}

/// Whether the tables in memory hold the writes of these batches, and the log of
/// the first one the batches themselves.
pub open spec fn logs_match(s: State, bss: Seq<Seq<wal::Batch>>) -> bool {
    &&& bss.len() == 1 + s.frozen@.len()
    &&& s.logged(bss[0])
    &&& forall|i: int| 0 <= i < bss.len() ==> wal::batches_fit(#[trigger] bss[i])
    &&& layers::all_hold(s.memory(), batch_writes(bss))
}

/// The writes of batches, log by log.
pub open spec fn batch_writes(bss: Seq<Seq<wal::Batch>>) -> Seq<Seq<versions::Entry>> {
    Seq::new(bss.len(), |i: int| wal::batch_entries(bss[i]))
}

/// A batch that is written is in the log of its table.
pub proof fn law_set_is_logged(
    a: State,
    b: State,
    tx_id: u64,
    es: Seq<versions::Entry>,
    bss: Seq<Seq<wal::Batch>>,
)
    requires
        logs_match(a, bss),
        wal::fresh(bss[0], tx_id),
        set_in(Ok(()), a, b, tx_id, es),
    ensures
        logs_match(b, bss.update(0, bss[0].push((tx_id, Some(es))))),
{
    let ns = bss.update(0, bss[0].push((tx_id, Some(es))));
    assert(b.logged(ns[0]));
    assert forall|i: int| 0 <= i < ns.len() implies wal::batches_fit(#[trigger] ns[i]) by {
        if i > 0 {
            assert(ns[i] == bss[i]);
        }
    }
    assert forall|i: int| 0 <= i < b.memory().len() implies layers::holds(
        #[trigger] b.memory()[i],
        batch_writes(ns)[i],
    ) by {
        if i > 0 {
            assert(b.memory()[i] == a.memory()[i]);
            assert(layers::holds(a.memory()[i], batch_writes(bss)[i]));
        }
    }
}

/// A transaction whose writes are refused leaves only its beginning in the log, and
/// the tables hold what their logs hold.
pub proof fn law_refusal_is_logged(
    a: State,
    b: State,
    tx_id: u64,
    bss: Seq<Seq<wal::Batch>>,
)
    requires
        logs_match(a, bss),
        wal::fresh(bss[0], tx_id),
        refused_in(a, b, tx_id),
    ensures
        logs_match(b, bss.update(0, bss[0].push((tx_id, None)))),
{
    let ns = bss.update(0, bss[0].push((tx_id, None)));
    assert(b.logged(ns[0]));
    assert forall|i: int| 0 <= i < ns.len() implies wal::batches_fit(#[trigger] ns[i]) by {
        if i > 0 {
            assert(ns[i] == bss[i]);
        }
    }
    assert(wal::batch_entries(ns[0]) =~= wal::batch_entries(bss[0])) by {
        assert(ns[0].drop_last() =~= bss[0]);
    }
    assert forall|i: int| 0 <= i < b.memory().len() implies layers::holds(
        #[trigger] b.memory()[i],
        batch_writes(ns)[i],
    ) by {
        assert(b.memory()[i] == a.memory()[i]);
        assert(layers::holds(a.memory()[i], batch_writes(bss)[i]));
        assert(batch_writes(ns)[i] == batch_writes(bss)[i]);
    }
}

/// Freezing starts a log without batches.
pub proof fn law_freeze_is_logged(a: State, b: State, id: u64, bss: Seq<Seq<wal::Batch>>)
    requires
        logs_match(a, bss),
        froze(a, b, id),
    ensures
        logs_match(b, seq![Seq::<wal::Batch>::empty()] + bss),
{
    let ns = seq![Seq::<wal::Batch>::empty()] + bss;
    lemma_froze(a, b, id);
    assert forall|i: int| 0 <= i < ns.len() implies wal::batches_fit(#[trigger] ns[i]) by {
        if i > 0 {
            assert(ns[i] == bss[i - 1]);
        }
    }
    assert(b.memory() =~= seq![b.mem_table@] + a.memory());
    assert forall|i: int| 0 <= i < b.memory().len() implies layers::holds(
        #[trigger] b.memory()[i],
        batch_writes(ns)[i],
    ) by {
        if i > 0 {
            assert(b.memory()[i] == a.memory()[i - 1]);
            assert(layers::holds(a.memory()[i - 1], batch_writes(bss)[i - 1]));
        }
    }
}

/// After a flush the log of the table that was flushed is not needed.
pub proof fn law_flush_retires_log(
    a: State,
    b: State,
    watermark: u64,
    t: Option<SSTable>,
    bss: Seq<Seq<wal::Batch>>,
)
    requires
        logs_match(a, bss),
        flushed(a, b, watermark, t),
    ensures
        logs_match(b, bss.drop_last()),
{
    let ns = bss.drop_last();
    assert forall|i: int| 0 <= i < ns.len() implies wal::batches_fit(#[trigger] ns[i]) by {
        assert(ns[i] == bss[i]);
    }
    assert forall|i: int| 0 <= i < b.memory().len() implies layers::holds(
        #[trigger] b.memory()[i],
        batch_writes(ns)[i],
    ) by {
        assert(b.memory()[i] == a.memory()[i]);
        assert(layers::holds(a.memory()[i], batch_writes(bss)[i]));
    }
}

/// A registered reader is told what the tables in memory and those that are kept for it
/// say, and where they say nothing what the tables on disk say: a fault there is
/// reported.
pub proof fn law_registered_reader_is_told(s: Storage, user: Seq<char>, snap: u64, since: u64)
    ensures
        match layers::read(
            s.state().memory() + state::memory_of(s.pins().tables(since)),
            user,
            snap,
        ) {
            LookupView::Found(t) => s.finds_since(user, snap, since) == Ok::<
                Option<Seq<char>>,
                Fault,
            >(Some(t)),
            LookupView::Deleted => s.finds_since(user, snap, since) == Ok::<
                Option<Seq<char>>,
                Fault,
            >(None),
            LookupView::Absent => match storage::disk_get(s.state().storage.order(), user, snap) {
                Ok(LookupView::Found(t)) => s.finds_since(user, snap, since) == Ok::<
                    Option<Seq<char>>,
                    Fault,
                >(Some(t)),
                Ok(_) => s.finds_since(user, snap, since) == Ok::<Option<Seq<char>>, Fault>(None),
                Err(f) => s.finds_since(user, snap, since) == Err::<Option<Seq<char>>, Fault>(f),
            },
        },
{
}

/// A flush writes of the oldest frozen table the versions, with their values, of whose
/// key no newer version is at or below the watermark, and nothing else.
pub proof fn law_flush_writes_what_readers_need(s: State, watermark: u64, k: KeyView)
    requires
        s.wf(),
        s.frozen@.len() > 0,
    ensures
        ({
            let (m, f) = (s.frozen@.last()@, versions::map_of(flush_of(s, watermark)));
            &&& f.contains_key(k) <==> m.contains_key(k) && forall|x: u64|
                k.seq < x <= watermark ==> !#[trigger] m.contains_key(
                    KeyView { user: k.user, seq: x },
                )
            &&& f.contains_key(k) ==> f[k] == m[k]
        }),
        versions::sorted(flush_of(s, watermark)),
{
    let t = s.frozen@.last();
    assert(s.frozen@[s.frozen@.len() - 1].wf());
    t.lemma_entries();
    versions::lemma_sorted_ascending(t.entries());
    compaction::law_compaction_keeps_exactly(t.entries(), false, watermark, k);
    compaction::law_compaction_sorted(t.entries(), false, watermark);
}

} // verus!
