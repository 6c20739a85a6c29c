//! The database: transactions over one storage.

use vstd::multiset::Multiset;
use vstd::prelude::*;
use vstd::utf8::*;

use crate::common::error::{DbError, DbResult, Fault};
use crate::common::key::{Key, KeyView};
use crate::common::lookup::LookupView;
use crate::common::path;
use crate::common::sorted;
use crate::common::sorted::SortedMap;
use crate::common::text;
use crate::common::value::{Value, ValueView};
use crate::common::versions;
use crate::memtable::{MemTable, MAX_SIZE};
use crate::sstable::meta;
use crate::sstable::scan::table as scan_table;
use crate::sstable::table::SSTable;
use crate::storage;
use crate::storage::layers;
use crate::storage::layers::Versions;
use crate::storage::pins;
use crate::storage::state;
use crate::storage::storage as disk;
use crate::storage::storage::DiskStorage;
use crate::storage::wal;
use crate::storage::wal::Wal;
use crate::storage::{Flush, Storage};
use crate::transaction::oracle;
use crate::transaction::oracle::Oracle;
use crate::transaction::snapshot::Snapshot;
use crate::transaction::Transaction;
use crate::wal::reader::WalReader;
use crate::wal::writer;
use crate::wal::CmdView;

pub mod flusher;

verus! {

/// A database.
pub struct DB {
    inner: Storage,
    oracle: Oracle,
}

/// A commit that has been logged and is not applied yet.
pub struct Pending {
    /// The sequence number of the commit.
    pub commit_ts: u64,
    /// The versions to write.
    pub batch: Vec<(Key, Value)>,
    /// The writes by key.
    pub buffer: SortedMap<Value>,
}

impl Pending {
    /// The versions are those of the writes.
    pub open spec fn wf(&self) -> bool {
        &&& self.buffer.wf()
        &&& scan_table::pairs(self.batch@) == oracle::writes(self.buffer.pairs(), self.commit_ts)
    }
}

/// Whether a database can be opened with these numbers: there is a number left
/// for the next log, the next commit and the next transaction.
pub open spec fn numbers_left(next_log: u64, max_seq: u64, max_tx_id: u64) -> bool {
    &&& next_log < u64::MAX
    &&& max_seq < u64::MAX - 1
    &&& max_tx_id < u64::MAX
}

impl DB {
    /// The storage.
    pub closed spec fn inner(&self) -> Storage {
        self.inner
    }

    /// The oracle.
    pub closed spec fn oracle(&self) -> Oracle {
        self.oracle
    }

    /// The tables and the readers are in good order.
    pub closed spec fn wf(&self) -> bool {
        self.inner.wf() && self.oracle.wf()
    }

    /// The parts of a database in good order are in good order.
    pub proof fn lemma_wf(&self)
        requires
            self.wf(),
        ensures
            self.inner().wf(),
            self.oracle().wf(),
            self.inner().state().wf(),
            self.inner().pins().wf(),
    {
        self.inner.lemma_wf();
    }

    /// All versions, the newest layer first.
    pub open spec fn layers(&self) -> Seq<Versions> {
        self.inner().state().layers()
    }

    /// Whether there are numbers left for another commit and another log.
    pub open spec fn commit_room(&self) -> bool {
        &&& self.oracle().next_seq() < u64::MAX
        &&& self.oracle().next_tx() < u64::MAX
        &&& self.inner().next_log() < u64::MAX
    }

    /// Whether there are numbers left for another log, another table and another
    /// flush.
    pub open spec fn flush_room(&self) -> bool {
        &&& self.inner().next_log() < u64::MAX
        &&& self.inner().state().storage.next_id() < u64::MAX
        &&& self.inner().pins().flushes() < u64::MAX
    }

    /// Whether the tables on disk were written whole, no layer holds a newer
    /// version of a key than an earlier one, and all versions are visible.
    pub open spec fn consistent(&self) -> bool {
        &&& self.inner().state().sound()
        &&& layers::recent_first(self.layers())
        &&& layers::at_most(self.layers(), self.oracle().visible())
    }

    /// What is visible under `user`.
    pub open spec fn value(&self, user: Seq<char>) -> Option<Seq<char>> {
        layers::read(self.layers(), user, self.oracle().visible()).answer()
    }

    /// Opens a database from its files: the names in the log directory, the logs
    /// in the order of [`Wal::replay_order`], and the files in the table
    /// directory.
    ///
    /// 1. Replays the logs into tables in memory.
    /// 2. Opens the tables on disk.
    /// 3. Resumes the sequence numbers above all that are in use.
    pub fn open(
        dir: &str,
        log_names: &Vec<String>,
        logs: Vec<WalReader>,
        files: Vec<(String, Vec<u8>)>,
    ) -> (r: DbResult<Self>)
        requires
            forall|i: int|
                0 <= i < logs@.len() ==> (#[trigger] logs@[i]).wf() && logs@[i].at() == 0,
        ensures
            (wal::restored(wal::logs_of(logs@)) matches Ok(v) && v.max_seq < 0xFFFF_FFFF_FFFF_FFFE
                && v.max_tx_id < 0xFFFF_FFFF_FFFF_FFFE) && (forall|i: int|
                0 <= i < log_names@.len() ==> (text::parsed_number(
                    (#[trigger] log_names@[i])@,
                    0xFFFF_FFFF_FFFF_FFFF,
                ) matches Some(n) ==> n < 0xFFFF_FFFF_FFFF_FFFE)) && (forall|i: int|
                0 <= i < files@.len() ==> (disk::named_table(
                    (#[trigger] files@[i]).0@,
                ) matches Some(t) ==> t.1 < 0xFFFF_FFFF_FFFF_FFFF && (meta::parsed_meta(
                    files@[i].1@,
                ) matches Ok(m) && m.footer.largest_seq < 0xFFFF_FFFF_FFFF_FFFE))) ==> r is Ok,
            match r {
                Ok(db) => opened(db, dir@, wal::texts(log_names@), wal::logs_of(logs@), files@),
                Err(e) => unopenable(
                    e,
                    wal::texts(log_names@),
                    wal::logs_of(logs@),
                    files@,
                ),
            },
    {
        proof {
            let names = wal::texts(log_names@);
            if (wal::restored(wal::logs_of(logs@)) matches Ok(v) && v.max_seq
                < 0xFFFF_FFFF_FFFF_FFFE && v.max_tx_id < 0xFFFF_FFFF_FFFF_FFFE) && (forall|i: int|
                0 <= i < log_names@.len() ==> (text::parsed_number(
                    (#[trigger] log_names@[i])@,
                    0xFFFF_FFFF_FFFF_FFFF,
                ) matches Some(n) ==> n < 0xFFFF_FFFF_FFFF_FFFE)) && (forall|i: int|
                0 <= i < files@.len() ==> (disk::named_table(
                    (#[trigger] files@[i]).0@,
                ) matches Some(t) ==> t.1 < 0xFFFF_FFFF_FFFF_FFFF && (meta::parsed_meta(
                    files@[i].1@,
                ) matches Ok(m) && m.footer.largest_seq < 0xFFFF_FFFF_FFFF_FFFE))) {
                assert forall|i: int| 0 <= i < names.len() implies (text::parsed_number(
                    #[trigger] names[i],
                    0xFFFF_FFFF_FFFF_FFFF,
                ) matches Some(n) ==> n < 0xFFFF_FFFF_FFFF_FFFE) by {
                    assert(names[i] == log_names@[i]@);
                }
                assert forall|e: DbError| !#[trigger] unopenable(
                    e,
                    names,
                    wal::logs_of(logs@),
                    files@,
                ) by {
                    law_readable_database_opens(e, names, wal::logs_of(logs@), files@);
                }
            }
        }
        let ghost (names, read, given) = (wal::texts(log_names@), wal::logs_of(logs@), files@);
        let wal = match Wal::new(dir, log_names) {
            Ok(wal) => wal,
            Err(e) => {
                assert(unopenable(e, names, read, given));
                return Err(e);
            },
        };
        let restored = match wal.restore(logs) {
            Ok(restored) => restored,
            Err(e) => {
                assert(unopenable(e, names, read, given));
                return Err(e);
            },
        };
        let storage = match DiskStorage::load(dir, files) {
            Ok(storage) => storage,
            Err(e) => {
                assert(unopenable(e, names, read, given));
                return Err(e);
            },
        };
        let max_seq: u64 = if storage.max_seq() >= restored.max_seq {
            storage.max_seq()
        } else {
            restored.max_seq
        };
        if !wal.has_room() || max_seq >= u64::MAX - 1 || restored.max_tx_id == u64::MAX {
            proof {
                assert(!numbers_left(
                    wal.next_id(),
                    wal::larger(storage.loaded_seq(), restored@.max_seq),
                    restored@.max_tx_id,
                ));
                assert(disk::loaded(storage, path::joined(dir@, disk::TABLES_DIR@), files@));
            }
            let e = DbError::invalid_state("numbers are used up");
            assert(unopenable(e, names, read, given));
            return Err(e);
        }
        let ghost v = restored@;
        let max_tx_id: u64 = restored.max_tx_id;
        match Storage::new(wal, storage, restored.tables) {
            Ok(inner) => {
                let db = DB { inner, oracle: Oracle::new(max_seq + 1, max_tx_id + 1) };
                proof {
                    assert(state::memory_of(db.inner.state().frozen@) =~= wal::restored_layers(v));
                    assert forall|i: int| 0 <= i < v.tables.len() implies (
                    #[trigger] db.inner.state().frozen@[i]).number() == v.tables[i].0 by {}
                }
                Ok(db)
            },
            Err(e) => {
                Err(e)
            },
        }
    }
}

/// Whether `db` is the database in these files.
pub open spec fn opened(
    db: DB,
    dir: Seq<char>,
    log_names: Seq<Seq<char>>,
    logs: Seq<(Seq<char>, Seq<u8>)>,
    files: Seq<(String, Vec<u8>)>,
) -> bool {
    let s = db.inner().state();
    &&& db.wf()
    &&& wal::restored(logs) matches Ok(v) && {
        let max_seq = wal::larger(s.storage.loaded_seq(), v.max_seq);
        &&& state::memory_of(s.frozen@) == wal::restored_layers(v)
        &&& s.frozen@.len() == v.tables.len()
        &&& forall|i: int|
            0 <= i < v.tables.len() ==> (#[trigger] s.frozen@[i]).number() == v.tables[i].0
        &&& db.oracle().visible() == max_seq + 1
        &&& db.oracle().next_seq() == max_seq + 2
        &&& db.oracle().next_tx() == v.max_tx_id + 1
        &&& numbers_left((db.inner().next_log() - 1) as u64, max_seq, v.max_tx_id)
    }
    &&& disk::loaded(s.storage, path::joined(dir, disk::TABLES_DIR@), files)
    &&& !disk::ids_used_up(files)
    &&& !wal::parsed_ids(log_names).contains(u64::MAX)
    &&& db.inner().log_dir() == path::joined(dir, wal::WAL_DIR@)
    &&& db.inner().next_log() >= 2
    &&& wal::is_latest(wal::parsed_ids(log_names), (db.inner().next_log() - 2) as u64)
    &&& s.mem_table.number() == db.inner().next_log() - 1
    &&& s.wal.name() == text::decimal_text((db.inner().next_log() - 1) as nat)
    &&& s.logged(Seq::empty())
    &&& s.wal.unwritten() == Seq::<u8>::empty()
    &&& s.mem_table@ == Map::<KeyView, ValueView>::empty()
    &&& s.mem_table.usage() == 0
    &&& s.mem_table.bytes() == 0
    &&& s.mem_table.limit() == MAX_SIZE
    &&& db.inner().waiting() == Seq::<(Seq<char>, Seq<u8>)>::empty()
    &&& !db.inner().stopping()
    &&& db.inner().pins().kept() == Seq::<(u64, MemTable)>::empty()
    &&& db.inner().pins().flushes() == 0
    &&& db.inner().pins().holders() == Multiset::<u64>::empty()
    &&& db.oracle().readers() == Map::<u64, u64>::empty()
    &&& db.oracle().commits() == Map::<Seq<char>, u64>::empty()
}

/// Whether `e` reports why these files are no database: there is no number left
/// for another log, the logs cannot be replayed, the tables cannot be opened, or
/// the numbers are used up.
pub open spec fn unopenable(
    e: DbError,
    log_names: Seq<Seq<char>>,
    logs: Seq<(Seq<char>, Seq<u8>)>,
    files: Seq<(String, Vec<u8>)>,
) -> bool {
    if wal::parsed_ids(log_names).contains(u64::MAX) {
        e.is_state("log numbers are used up"@)
    } else {
        match wal::restored(logs) {
            Err(t) => wal::reports(e, t),
            Ok(v) => disk::unloadable(e, files) || {
                &&& e.is_state("numbers are used up"@)
                &&& exists|next_log: u64, s: DiskStorage, d: Seq<char>|
                    {
                        &&& next_log > 0
                        &&& wal::is_latest(wal::parsed_ids(log_names), (next_log - 1) as u64)
                        &&& #[trigger] disk::loaded(s, d, files)
                        &&& !#[trigger] numbers_left(
                            next_log,
                            wal::larger(s.loaded_seq(), v.max_seq),
                            v.max_tx_id,
                        )
                    }
            },
        }
    }
}

/// A database opens whenever its logs can be replayed, its tables can be read, and the
/// highest number of a log, of a commit, of a transaction and of a table leave room for
/// the next: below the two highest numbers of eight bytes none is refused.
pub proof fn law_readable_database_opens(
    e: DbError,
    log_names: Seq<Seq<char>>,
    logs: Seq<(Seq<char>, Seq<u8>)>,
    files: Seq<(String, Vec<u8>)>,
)
    requires
        wal::restored(logs) matches Ok(v) && v.max_seq < 0xFFFF_FFFF_FFFF_FFFE && v.max_tx_id
            < 0xFFFF_FFFF_FFFF_FFFE,
        forall|i: int|
            0 <= i < log_names.len() ==> (text::parsed_number(
                #[trigger] log_names[i],
                0xFFFF_FFFF_FFFF_FFFF,
            ) matches Some(n) ==> n < 0xFFFF_FFFF_FFFF_FFFE),
        forall|i: int|
            0 <= i < files.len() ==> (disk::named_table((#[trigger] files[i]).0@) matches Some(t)
                ==> t.1 < 0xFFFF_FFFF_FFFF_FFFF && (meta::parsed_meta(files[i].1@) matches Ok(m)
                && m.footer.largest_seq < 0xFFFF_FFFF_FFFF_FFFE)),
    ensures
        !unopenable(e, log_names, logs, files),
{
    let v = wal::restored(logs)->Ok_0;
    wal::law_log_numbers(log_names, u64::MAX);
    disk::law_readable_tables_are_loaded(e, files);
    assert forall|next_log: u64, s: DiskStorage, d: Seq<char>|
        next_log > 0 && wal::is_latest(wal::parsed_ids(log_names), (next_log - 1) as u64)
            && #[trigger] disk::loaded(s, d, files) implies #[trigger] numbers_left(
        next_log,
        wal::larger(s.loaded_seq(), v.max_seq),
        v.max_tx_id,
    ) by {
        wal::law_log_numbers(log_names, (next_log - 1) as u64);
        disk::law_loaded_sequence(s, d, files);
    }
}

impl DB {
    /// The storage.
    pub fn storage(&self) -> (r: &Storage)
        ensures
            *r == self.inner(),
    {
        &self.inner
    }

    /// Whether there are numbers left for another commit and another log.
    pub fn has_commit_room(&self) -> (r: bool)
        ensures
            r == self.commit_room(),
            r <==> self.oracle().next_seq() < 0xFFFF_FFFF_FFFF_FFFF && self.oracle().next_tx()
                < 0xFFFF_FFFF_FFFF_FFFF && self.inner().next_log() < 0xFFFF_FFFF_FFFF_FFFF,
    {
        self.oracle.has_room() && self.inner.has_log_room()
    }

    /// Whether there are numbers left for another log, another table and another
    /// flush.
    pub fn has_flush_room(&self) -> (r: bool)
        ensures
            r == self.flush_room(),
            r <==> self.inner().next_log() < 0xFFFF_FFFF_FFFF_FFFF
                && self.inner().state().storage.next_id() < 0xFFFF_FFFF_FFFF_FFFF
                && self.inner().pins().flushes() < 0xFFFF_FFFF_FFFF_FFFF,
    {
        self.inner.has_room()
    }

    /// Whether one more transaction or snapshot can be counted.
    pub fn has_reader_room(&self) -> (r: bool)
        ensures
            r == self.oracle().reader_room(),
            r <==> (self.oracle().readers().contains_key(self.oracle().visible())
                ==> self.oracle().readers()[self.oracle().visible()] < 0xFFFF_FFFF_FFFF_FFFF),
    {
        self.oracle.has_reader_room()
    }

    /// Begins a transaction.
    pub fn transaction(&mut self) -> (r: Transaction)
        requires
            old(self).wf(),
            old(self).oracle().reader_room(),
        ensures
            final(self).wf(),
            r.wf(),
            r.ts() == old(self).oracle().visible(),
            r.pairs() == Seq::<(Seq<char>, Value)>::empty(),
            r.writes() == Map::<Seq<char>, ValueView>::empty(),
            r.start() == old(self).inner().pins().flushes(),
            final(self).inner().pins().holders() == old(self).inner().pins().holders().insert(
                r.start(),
            ),
            final(self).oracle().readers().contains_key(r.ts()),
            final(self).oracle().readers()[r.ts()] == 1 + (if old(
                self,
            ).oracle().readers().contains_key(r.ts()) {
                old(self).oracle().readers()[r.ts()] as int
            } else {
                0
            }),
            forall|user: Seq<char>|
                old(self).inner().state().sound() ==> #[trigger] final(self).inner().finds_since(
                    user,
                    r.ts(),
                    r.start(),
                ) == Ok::<Option<Seq<char>>, Fault>(old(self).value(user)),
            registered(*old(self), *final(self), r.ts()),
    {
        let r = Transaction::new(&mut self.oracle, &mut self.inner);
        proof {
            assert forall|user: Seq<char>|
                old(self).inner().state().sound() implies #[trigger] self.inner().finds_since(
                user,
                r.ts(),
                r.start(),
            ) == Ok::<Option<Seq<char>>, Fault>(old(self).value(user)) by {
                law_reader_sees_what_is_visible(*old(self), *self, r.ts(), user);
            }
        }
        r
    }

    /// Takes a read-only snapshot; every read through it sees the same state.
    pub fn snapshot(&mut self) -> (r: Snapshot)
        requires
            old(self).wf(),
            old(self).oracle().reader_room(),
        ensures
            final(self).wf(),
            r.ts() == old(self).oracle().visible(),
            r.start() == old(self).inner().pins().flushes(),
            final(self).inner().pins().holders() == old(self).inner().pins().holders().insert(
                r.start(),
            ),
            final(self).oracle().readers().contains_key(r.ts()),
            final(self).oracle().readers()[r.ts()] == 1 + (if old(
                self,
            ).oracle().readers().contains_key(r.ts()) {
                old(self).oracle().readers()[r.ts()] as int
            } else {
                0
            }),
            forall|user: Seq<char>|
                old(self).inner().state().sound() ==> #[trigger] final(self).inner().finds_since(
                    user,
                    r.ts(),
                    r.start(),
                ) == Ok::<Option<Seq<char>>, Fault>(old(self).value(user)),
            registered(*old(self), *final(self), r.ts()),
    {
        let r = Snapshot::new(&mut self.oracle, &mut self.inner);
        proof {
            assert forall|user: Seq<char>|
                old(self).inner().state().sound() implies #[trigger] self.inner().finds_since(
                user,
                r.ts(),
                r.start(),
            ) == Ok::<Option<Seq<char>>, Fault>(old(self).value(user)) by {
                law_reader_sees_what_is_visible(*old(self), *self, r.ts(), user);
            }
        }
        r
    }

    /// Takes back the registration of a transaction or a snapshot that read at
    /// `read_ts` and began when `since` tables had been flushed.
    pub fn end(&mut self, read_ts: u64, since: u64)
        requires
            old(self).wf(),
        ensures
            final(self).wf(),
            storage::alike(old(self).inner(), final(self).inner()),
            pins::unpinned(old(self).inner().pins(), final(self).inner().pins(), since),
            final(self).oracle().readers() == oracle::without(
                old(self).oracle().readers(),
                read_ts,
            ),
            final(self).oracle().next_seq() == old(self).oracle().next_seq(),
            final(self).oracle().next_tx() == old(self).oracle().next_tx(),
            oracle::same_numbers(old(self).oracle(), final(self).oracle()),
    {
        self.inner.unpin(since);
        self.oracle.end(read_ts);
    }

    /// The latest committed value of `key`.
    pub fn get(&self, key: &str) -> (r: DbResult<Option<String>>)
        requires
            self.wf(),
        ensures
            state::tells(r, self.inner().state().finds(key@, self.oracle().visible())),
            self.inner().state().sound() ==> (r matches Ok(s) && state::text_of(s) == self.value(
                key@,
            )),
    {
        self.inner.get_snap(key, self.oracle.read_ts())
    }

    /// Writes a value, as a transaction of its own that conflicts with nothing.
    pub fn set(&mut self, key: &str, value: &str) -> (r: DbResult<()>)
        requires
            old(self).wf(),
            old(self).commit_room(),
        ensures
            final(self).wf(),
            final(self).oracle().readers() == old(self).oracle().readers(),
            final(self).oracle().next_tx() == old(self).oracle().next_tx() + 1,
            final(self).inner().pins() == old(self).inner().pins(),
            exists|ps: Seq<(Seq<char>, Value)>| #[trigger]
                is_single(ps, key@, ValueView::Put(value@)) && oracle::attempted(
                    oracle::failure(r),
                    (old(self).oracle(), old(self).inner()),
                    (final(self).oracle(), final(self).inner()),
                    old(self).oracle().next_tx(),
                    None,
                    ps,
                ),
            r is Ok <==> encode_utf8(key@).len() <= 65535 && encode_utf8(value@).len() <= 65535,
            r is Ok ==> {
                let (a, b) = (old(self).inner().state(), final(self).inner().state());
                &&& b.mem_table.usage() < b.mem_table.limit()
                &&& b.storage == a.storage
                &&& b.frozen@ == a.frozen@ || (b.frozen@.len() == a.frozen@.len() + 1
                    && b.frozen@.drop_first() == a.frozen@ && b.frozen@[0].usage()
                    >= b.frozen@[0].limit())
            },
            r is Ok ==> {
                &&& final(self).oracle().visible() == old(self).oracle().next_seq()
                &&& final(self).oracle().commits().contains_key(key@)
                &&& final(self).oracle().commits()[key@] == old(self).oracle().next_seq()
            },
            forall|k: Seq<char>|
                k != key@ || r is Err ==> (#[trigger] final(self).oracle().commits().contains_key(k)
                    <==> old(self).oracle().commits().contains_key(k)) && (old(
                    self,
                ).oracle().commits().contains_key(k) ==> final(self).oracle().commits()[k] == old(
                    self,
                ).oracle().commits()[k]),
            old(self).consistent() ==> final(self).consistent(),
            old(self).consistent() && r is Ok ==> final(self).value(key@) == Some(value@),
            forall|user: Seq<char>|
                old(self).consistent() && (user != key@ || r is Err)
                    ==> #[trigger] final(self).value(user) == old(self).value(user),
    {
        let mut buffer: SortedMap<Value> = SortedMap::new();
        let v = Value::set(value);
        buffer.push(key.to_owned(), v);
        let ghost ps = buffer.pairs();
        let tx_id: u64 = self.oracle.next_tx_id();
        let ghost mid = *self;
        let r = match self.oracle.commit(tx_id, &mut self.inner, None, buffer) {
            Ok(_) => Ok(()),
            Err(e) => Err(e),
        };
        proof {
            assert(is_single(ps, key@, ValueView::Put(value@)));
            let before = (old(self).oracle, old(self).inner);
            let after = (self.oracle, self.inner);
            assert(oracle::attempted(oracle::failure(r), before, after, tx_id, None, ps));
            oracle::law_attempted(oracle::failure(r), before, after, tx_id, None, ps);
            assert(ps[0].0 == key@);
            assert(ps[0].1@ == ValueView::Put(value@));
            if old(self).consistent() {
                law_attempt(*old(self), *self, oracle::failure(r), tx_id, None, ps);
                assert forall|user: Seq<char>|
                    user != key@ || r is Err implies #[trigger] self.value(user) == old(
                    self,
                ).value(user) by {
                    law_attempt_value(
                        *old(self),
                        *self,
                        oracle::failure(r),
                        tx_id,
                        None,
                        ps,
                        user,
                    );
                }
                if r is Ok {
                    law_attempt_value(
                        *old(self),
                        *self,
                        oracle::failure(r),
                        tx_id,
                        None,
                        ps,
                        key@,
                    );
                    assert(ps[0].0 == key@);
                }
            }
        }
        r
    }
}

/// Whether `ps` is one write of `v` under `key`.
pub open spec fn is_single(ps: Seq<(Seq<char>, Value)>, key: Seq<char>, v: ValueView) -> bool {
    ps.len() == 1 && ps[0].0 == key && ps[0].1@ == v
}

/// Whether `b` is `a` with one more reader at `ts`.
pub open spec fn registered(a: DB, b: DB, ts: u64) -> bool {
    &&& storage::alike(a.inner(), b.inner())
    &&& pins::pinned(a.inner().pins(), b.inner().pins())
    &&& b.oracle().readers() == oracle::with(a.oracle().readers(), ts)
    &&& b.oracle().next_seq() == a.oracle().next_seq()
    &&& b.oracle().next_tx() == a.oracle().next_tx()
    &&& oracle::same_numbers(a.oracle(), b.oracle())
}

/// A reader that begins reads what is visible then, when the tables on disk were written
/// whole.
pub proof fn law_reader_sees_what_is_visible(a: DB, b: DB, ts: u64, user: Seq<char>)
    requires
        b.wf(),
        a.inner().state().sound(),
        registered(a, b, ts),
        ts == a.oracle().visible(),
    ensures
        b.inner().finds_since(user, ts, a.inner().pins().flushes()) == Ok::<
            Option<Seq<char>>,
            Fault,
        >(a.value(user)),
{
    b.lemma_wf();
    storage::law_reader_begins(b.inner(), user, ts);
    state::law_state_answers(a.inner().state(), user, ts);
}

/// An attempt to commit keeps a database consistent.
pub proof fn law_attempt(
    a: DB,
    b: DB,
    e: Option<DbError>,
    tx_id: u64,
    read_ts: Option<u64>,
    ps: Seq<(Seq<char>, Value)>,
)
    requires
        a.wf(),
        a.consistent(),
        sorted::keys_ascend(ps),
        oracle::attempted(
            e,
            (a.oracle(), a.inner()),
            (b.oracle(), b.inner()),
            tx_id,
            read_ts,
            ps,
        ),
    ensures
        b.consistent(),
        e is Some ==> b.layers() == a.layers(),
{
    a.oracle.lemma_bounds();
    let ts = a.oracle().next_seq();
    let es = oracle::writes(ps, ts);
    if e is None {
        oracle::lemma_writes(ps, ts);
        oracle::lemma_committed(a.inner(), b.inner(), tx_id, es);
        oracle::law_commit_order(
            a.inner(),
            b.inner(),
            tx_id,
            es,
            ts,
            a.oracle().visible(),
        );
    }
}

/// What is visible after an attempt to commit: the writes if it succeeded, and
/// under all other keys what was visible before.
pub proof fn law_attempt_value(
    a: DB,
    b: DB,
    e: Option<DbError>,
    tx_id: u64,
    read_ts: Option<u64>,
    ps: Seq<(Seq<char>, Value)>,
    user: Seq<char>,
)
    requires
        a.wf(),
        a.consistent(),
        sorted::keys_ascend(ps),
        oracle::attempted(
            e,
            (a.oracle(), a.inner()),
            (b.oracle(), b.inner()),
            tx_id,
            read_ts,
            ps,
        ),
    ensures
        forall|i: int|
            0 <= i < ps.len() && (#[trigger] ps[i]).0 == user && e is None ==> b.value(user)
                == LookupView::of(ps[i].1@).answer(),
        e is Some || (forall|i: int| 0 <= i < ps.len() ==> (#[trigger] ps[i]).0 != user)
            ==> b.value(user) == a.value(user),
{
    a.oracle.lemma_bounds();
    let ts = a.oracle().next_seq();
    let es = oracle::writes(ps, ts);
    let (s, t) = (a.inner(), b.inner());
    if e is None {
        oracle::lemma_writes(ps, ts);
        assert forall|k: KeyView| #[trigger] s.state().mem_table@.contains_key(k) implies k.seq
            < ts by {
            assert(a.layers()[0] == s.state().mem_table@);
            assert(a.layers()[0].contains_key(k));
        }
        assert forall|i: int| 0 <= i < ps.len() && (#[trigger] ps[i]).0 == user implies b.value(
            user,
        ) == LookupView::of(ps[i].1@).answer() by {
            assert(es[i].0.user == user && es[i].1 == ps[i].1@);
            oracle::law_commit_above(s, t, tx_id, es, ts, i, ts);
        }
        if forall|i: int| 0 <= i < ps.len() ==> (#[trigger] ps[i]).0 != user {
            assert forall|i: int| 0 <= i < es.len() implies (#[trigger] es[i]).0.user != user by {
                assert(ps[i].0 != user);
            }
            oracle::law_commit_others(s, t, tx_id, es, user, ts);
            layers::lemma_read_top(a.layers(), a.oracle().visible(), user, ts);
        }
    } else {
        law_attempt(a, b, e, tx_id, read_ts, ps);
    }
}

/// A reader sees the same before and after an attempt to commit: the snapshot of
/// a transaction does not move.
pub proof fn law_snapshot_ignores_commits(
    a: DB,
    b: DB,
    e: Option<DbError>,
    tx_id: u64,
    read_ts: Option<u64>,
    ps: Seq<(Seq<char>, Value)>,
    user: Seq<char>,
    snap: u64,
    since: u64,
)
    requires
        a.wf(),
        sorted::keys_ascend(ps),
        oracle::attempted(
            e,
            (a.oracle(), a.inner()),
            (b.oracle(), b.inner()),
            tx_id,
            read_ts,
            ps,
        ),
        snap <= a.oracle().visible(),
        b.inner().pins() == a.inner().pins(),
    ensures
        layers::read(b.layers(), user, snap) == layers::read(a.layers(), user, snap),
        b.inner().finds_since(user, snap, since) == a.inner().finds_since(user, snap, since),
{
    a.oracle.lemma_bounds();
    let ts = a.oracle().next_seq();
    if e is None {
        oracle::lemma_writes(ps, ts);
        oracle::law_reader_ignores_commit(
            a.inner(),
            b.inner(),
            tx_id,
            oracle::writes(ps, ts),
            ts,
            user,
            snap,
            since,
        );
        oracle::law_commit_below(
            a.inner(),
            b.inner(),
            tx_id,
            oracle::writes(ps, ts),
            ts,
            user,
            snap,
        );
    }
}

impl DB {
    /// Commits a transaction. Fails, and writes nothing, when another commit wrote
    /// one of its keys after it began. Fails, and leaves only the record that begins
    /// it in the log, when the log refuses one of its writes.
    pub fn commit(&mut self, tx: Transaction) -> (r: DbResult<()>)
        requires
            old(self).wf(),
            old(self).commit_room(),
            tx.wf(),
        ensures
            final(self).wf(),
            final(self).oracle().readers() == oracle::without(
                old(self).oracle().readers(),
                tx.ts(),
            ),
            pins::unpinned(old(self).inner().pins(), final(self).inner().pins(), tx.start()),
            tx.pairs().len() == 0 ==> {
                &&& r is Ok
                &&& storage::alike(old(self).inner(), final(self).inner())
                &&& oracle::same_numbers(old(self).oracle(), final(self).oracle())
                &&& final(self).oracle().next_seq() == old(self).oracle().next_seq()
                &&& final(self).oracle().next_tx() == old(self).oracle().next_tx()
            },
            tx.pairs().len() > 0 ==> {
                &&& final(self).oracle().next_tx() == old(self).oracle().next_tx() + 1
                &&& oracle::attempted(
                    oracle::failure(r),
                    (old(self).oracle(), old(self).inner()),
                    (final(self).oracle(), final(self).inner()),
                    old(self).oracle().next_tx(),
                    Some(tx.ts()),
                    tx.pairs(),
                )
            },
            old(self).oracle().readers().contains_key(tx.ts()) ==> ((r matches Err(e)
                && e is CommitConflict) <==> oracle::conflicts(
                old(self).oracle().commits(),
                tx.pairs(),
                Some(tx.ts()),
            )),
            r is Ok && tx.pairs().len() > 0 ==> {
                let (a, b) = (old(self).inner().state(), final(self).inner().state());
                &&& b.mem_table.usage() < b.mem_table.limit()
                &&& b.storage == a.storage
                &&& b.frozen@ == a.frozen@ || (b.frozen@.len() == a.frozen@.len() + 1
                    && b.frozen@.drop_first() == a.frozen@ && b.frozen@[0].usage()
                    >= b.frozen@[0].limit())
            },
            tx.pairs().len() <= 65535 && (forall|k: Seq<char>| #[trigger]
                tx.writes().contains_key(k) ==> {
                    &&& old(self).oracle().commits().contains_key(k) ==> old(
                        self,
                    ).oracle().commits()[k] <= tx.ts()
                    &&& encode_utf8(k).len() <= 65535
                    &&& tx.writes()[k] matches ValueView::Put(s) ==> encode_utf8(s).len() <= 65535
                }) ==> r is Ok,
            forall|k: Seq<char>| #[trigger]
                tx.writes().contains_key(k) ==> {
                    &&& old(self).oracle().readers().contains_key(tx.ts()) && old(
                        self,
                    ).oracle().commits().contains_key(k) && old(self).oracle().commits()[k]
                        > tx.ts() ==> r is Err
                    &&& encode_utf8(k).len() > 65535 ==> r is Err
                    &&& tx.writes()[k] matches ValueView::Put(s) ==> (encode_utf8(s).len() > 65535
                        ==> r is Err)
                    &&& r is Ok ==> final(self).oracle().commits().contains_key(k) && final(self).oracle().commits()[k] == old(self).oracle().next_seq()
                },
            (r matches Err(e) && e is CommitConflict) ==> exists|k: Seq<char>| #[trigger]
                tx.writes().contains_key(k) && old(self).oracle().commits().contains_key(k) && old(
                    self,
                ).oracle().commits()[k] > tx.ts(),
            forall|k: Seq<char>|
                !tx.writes().contains_key(k) || r is Err ==> (#[trigger] final(self).oracle().commits().contains_key(k) <==> old(
                    self,
                ).oracle().commits().contains_key(k)) && (old(
                    self,
                ).oracle().commits().contains_key(k) ==> final(self).oracle().commits()[k] == old(
                    self,
                ).oracle().commits()[k]),
            old(self).consistent() ==> final(self).consistent(),
            forall|user: Seq<char>|
                old(self).consistent() ==> #[trigger] final(self).value(user) == (if r is Ok
                    && tx.writes().contains_key(user) {
                    LookupView::of(tx.writes()[user]).answer()
                } else {
                    old(self).value(user)
                }),
    {
        let ghost before = *self;
        let ghost (ts, ps, ws) = (tx.ts(), tx.pairs(), tx.writes());
        let ghost tx_id = self.oracle.next_tx();
        proof {
            tx.lemma_pairs();
            sorted::lemma_map_of_pairs(ps);
        }
        let r = tx.commit(&mut self.oracle, &mut self.inner);
        proof {
            if before.oracle.readers().contains_key(ts) {
                oracle::law_no_conflict_is_hidden(before.oracle, ps, ts);
            }
            let pair = (before.oracle, before.inner);
            if ps.len() > 0 {
                oracle::law_attempted(
                    oracle::failure(r),
                    pair,
                    (self.oracle, self.inner),
                    tx_id,
                    Some(ts),
                    ps,
                );
            }
            assert forall|i: int| 0 <= i < ps.len() implies ws.contains_key((#[trigger] ps[i]).0)
                && ws[ps[i].0] == ps[i].1@ by {}
            assert forall|k: Seq<char>| #[trigger] ws.contains_key(k) implies exists|i: int|
                0 <= i < ps.len() && (#[trigger] ps[i]).0 == k && ps[i].1@ == ws[k] by {
                let i = choose|i: int| 0 <= i < ps.len() && (#[trigger] ps[i]).0 == k;
                assert(ps[i].0 == k && ps[i].1@ == ws[k]);
            }
            if before.consistent() {
                assert(ps.len() == 0 ==> ws =~= Map::<Seq<char>, ValueView>::empty());
                if ps.len() > 0 {
                    law_attempt(before, *self, oracle::failure(r), tx_id, Some(ts), ps);
                }
                assert forall|user: Seq<char>| #[trigger] self.value(user) == (if r is Ok
                    && ws.contains_key(user) {
                    LookupView::of(ws[user]).answer()
                } else {
                    before.value(user)
                }) by {
                    if ps.len() > 0 {
                        law_attempt_value(
                            before,
                            *self,
                            oracle::failure(r),
                            tx_id,
                            Some(ts),
                            ps,
                            user,
                        );
                        if ws.contains_key(user) {
                            let i = choose|i: int|
                                0 <= i < ps.len() && (#[trigger] ps[i]).0 == user;
                            assert(ws[user] == ps[i].1@);
                        } else {
                            assert forall|i: int| 0 <= i < ps.len() implies (#[trigger] ps[i]).0
                                != user by {
                                assert(sorted::map_of_pairs(ps).contains_key(ps[i].0));
                            }
                        }
                    }
                }
            }
        }
        r
    }

    /// Moves what is in memory to disk: freezes the table in memory if it holds
    /// anything, then flushes the oldest frozen table. Returns whether there was
    /// one.
    pub fn flush(&mut self) -> (r: DbResult<bool>)
        requires
            old(self).wf(),
            old(self).flush_room(),
        ensures
            final(self).inner().state().mem_table.entries().len() == 0,
            final(self).inner().state().frozen@.len() == old(self).inner().state().frozen@.len() + (
            if old(self).inner().state().mem_table.entries().len() > 0 {
                1int
            } else {
                0int
            }) - (if r matches Ok(true) {
                1int
            } else {
                0int
            }),
            r matches Ok(true) || final(self).inner().state().storage.order() == old(
                self,
            ).inner().state().storage.order(),
            forall|user: Seq<char>|
                match old(self).value(user) {
                    Some(s) => s.len() > 0 ==> #[trigger] final(self).value(user) == Some(s),
                    None => final(self).value(user) is None,
                },
            versions::are_small(
                (if old(self).inner().state().frozen@.len() > 0 {
                    old(self).inner().state().frozen@.last()
                } else {
                    old(self).inner().state().mem_table
                }).entries(),
            ) ==> r is Ok,
            final(self).wf(),
            final(self).oracle() == old(self).oracle(),
            final(self).inner().stopping() == old(self).inner().stopping(),
            exists|mid: Storage| #[trigger]
                flush_through(
                    r,
                    old(self).inner(),
                    mid,
                    final(self).inner(),
                    old(self).oracle().line(),
                ),
            final(self).inner().state().storage.dir() == old(self).inner().state().storage.dir(),
            final(self).inner().state().storage.next_id() == old(
                self,
            ).inner().state().storage.next_id() + (if r matches Ok(false) {
                0int
            } else {
                1int
            }),
            r matches Ok(done) ==> (done <==> old(self).inner().state().frozen@.len() > 0 || old(
                self,
            ).inner().state().mem_table.entries().len() > 0),
            old(self).consistent() ==> final(self).consistent(),
            forall|user: Seq<char>, snap: u64|
                old(self).oracle().line() <= snap ==> layers::same_after_flush(
                    layers::read(old(self).layers(), user, snap),
                    #[trigger] layers::read(final(self).layers(), user, snap),
                ),
    {
        let ghost before = *self;
        let read_ts_watermark: u64 = self.oracle.watermark();
        match self.oracle.freeze(&mut self.inner) {
            Ok(_) => {},
            Err(e) => {
                return Err(e);
            },
        }
        let ghost mid = self.inner;
        proof {
            before.lemma_wf();
            mid.lemma_wf();
        }
        let r = self.inner.flush_oldest(read_ts_watermark);
        proof {
            before.oracle.lemma_bounds();
            if before.inner.state().mem_table.entries().len() > 0 {
                mid.state().mem_table.lemma_empty();
            }
            assert(flush_through(r, before.inner, mid, self.inner, read_ts_watermark));
            assert forall|user: Seq<char>|
                match before.value(user) {
                    Some(s) => s.len() > 0 ==> #[trigger] self.value(user) == Some(s),
                    None => self.value(user) is None,
                } by {
                let top = self.oracle.visible();
                law_flush_through(r, before.inner, mid, self.inner, read_ts_watermark, user, top);
                layers::law_same_after_flush(
                    layers::read(before.layers(), user, top),
                    layers::read(self.layers(), user, top),
                );
            }
            assert forall|user: Seq<char>, snap: u64|
                read_ts_watermark <= snap implies layers::same_after_flush(
                layers::read(before.layers(), user, snap),
                #[trigger] layers::read(self.layers(), user, snap),
            ) by {
                law_flush_through(r, before.inner, mid, self.inner, read_ts_watermark, user, snap);
            }
            if before.consistent() {
                lemma_flush_through_order(
                    r,
                    before.inner,
                    mid,
                    self.inner,
                    read_ts_watermark,
                    self.oracle.visible(),
                );
            }
        }
        r
    }

    /// Flushes what is in memory and marks the store as being shut down.
    pub fn close(&mut self) -> (r: DbResult<bool>)
        requires
            old(self).wf(),
            old(self).flush_room(),
        ensures
            final(self).inner().state().mem_table.entries().len() == 0,
            final(self).inner().state().frozen@.len() == old(self).inner().state().frozen@.len() + (
            if old(self).inner().state().mem_table.entries().len() > 0 {
                1int
            } else {
                0int
            }) - (if r matches Ok(true) {
                1int
            } else {
                0int
            }),
            r matches Ok(true) || final(self).inner().state().storage.order() == old(
                self,
            ).inner().state().storage.order(),
            forall|user: Seq<char>|
                match old(self).value(user) {
                    Some(s) => s.len() > 0 ==> #[trigger] final(self).value(user) == Some(s),
                    None => final(self).value(user) is None,
                },
            versions::are_small(
                (if old(self).inner().state().frozen@.len() > 0 {
                    old(self).inner().state().frozen@.last()
                } else {
                    old(self).inner().state().mem_table
                }).entries(),
            ) ==> r is Ok,
            final(self).wf(),
            final(self).oracle() == old(self).oracle(),
            final(self).inner().stopping(),
            exists|mid: Storage| #[trigger]
                flush_through(
                    r,
                    old(self).inner(),
                    mid,
                    final(self).inner(),
                    old(self).oracle().line(),
                ),
            final(self).inner().state().storage.dir() == old(self).inner().state().storage.dir(),
            final(self).inner().state().storage.next_id() == old(
                self,
            ).inner().state().storage.next_id() + (if r matches Ok(false) {
                0int
            } else {
                1int
            }),
            r matches Ok(done) ==> (done <==> old(self).inner().state().frozen@.len() > 0 || old(
                self,
            ).inner().state().mem_table.entries().len() > 0),
            old(self).consistent() ==> final(self).consistent(),
            forall|user: Seq<char>, snap: u64|
                old(self).oracle().line() <= snap ==> layers::same_after_flush(
                    layers::read(old(self).layers(), user, snap),
                    #[trigger] layers::read(final(self).layers(), user, snap),
                ),
    {
        let ghost before = self.inner;
        let result = self.flush();
        let ghost end = self.inner;
        let ghost done = *self;
        self.inner.begin_shutdown();
        proof {
            assert forall|user: Seq<char>| #[trigger] self.value(user) == done.value(user) by {}
            let line = self.oracle.line();
            let mid = choose|mid: Storage| #[trigger]
                flush_through(result, before, mid, end, line);
            assert(flush_through(result, before, mid, self.inner, line));
        }
        result
    }

    /// Marks the store as being shut down.
    pub fn begin_shutdown(&mut self)
        requires
            old(self).wf(),
        ensures
            final(self).wf(),
            final(self).oracle() == old(self).oracle(),
            final(self).inner().stopping(),
            final(self).inner().pins() == old(self).inner().pins(),
            final(self).inner().state() == old(self).inner().state(),
            final(self).inner().log_dir() == old(self).inner().log_dir(),
            final(self).inner().next_log() == old(self).inner().next_log(),
            final(self).inner().waiting() == old(self).inner().waiting(),
    {
        self.inner.begin_shutdown();
    }
}

/// Whether `mid` is `a` with the table in memory frozen if it holds anything, and
/// `b` is `mid` with its oldest frozen table flushed, as `r` tells.
pub open spec fn flush_through(
    r: DbResult<bool>,
    a: Storage,
    mid: Storage,
    b: Storage,
    watermark: u64,
) -> bool {
    &&& a.wf()
    &&& storage::frozen_when(a, mid, a.state().mem_table.entries().len() > 0)
    &&& b.log_dir() == mid.log_dir()
    &&& b.next_log() == mid.next_log()
    &&& b.waiting() == mid.waiting()
    &&& match r {
        Ok(true) => {
            &&& exists|t: Option<SSTable>| #[trigger]
                storage::flushed_next(mid.state(), b.state(), watermark, t)
            &&& pins::keeps(mid.pins(), b.pins(), mid.state().frozen@.last())
        },
        Ok(false) => {
            &&& mid.state().frozen@.len() == 0
            &&& b.state() == mid.state()
            &&& b.pins() == mid.pins()
        },
        Err(e) => {
            &&& e is InvalidInt
            &&& b.pins() == mid.pins()
            &&& mid.state().frozen@.len() > 0
            &&& disk::unwritable(storage::flush_of(mid.state(), watermark))
            &&& storage::unflushed(mid.state(), b.state())
        },
    }
}

/// A flush changes no answer that a reader at or above the watermark gets, but
/// that an empty text comes back as a deletion mark.
pub proof fn law_flush_through(
    r: DbResult<bool>,
    a: Storage,
    mid: Storage,
    b: Storage,
    watermark: u64,
    user: Seq<char>,
    snap: u64,
)
    requires
        flush_through(r, a, mid, b, watermark),
        watermark <= snap,
    ensures
        layers::same_after_flush(
            layers::read(a.state().layers(), user, snap),
            layers::read(b.state().layers(), user, snap),
        ),
{
    mid.lemma_wf();
    if a.state().mem_table.entries().len() > 0 {
        storage::law_freeze(a.state(), mid.state(), a.next_log(), user, snap);
    }
    if let Ok(true) = r {
        let t = choose|t: Option<SSTable>| #[trigger]
            storage::flushed_next(mid.state(), b.state(), watermark, t);
        storage::law_flush(mid.state(), b.state(), watermark, t, user, snap);
    }
}

/// A flush changes nothing for a transaction or a snapshot that began before it:
/// not even an empty text reads differently.
pub proof fn law_snapshot_ignores_flush(
    r: DbResult<bool>,
    a: Storage,
    mid: Storage,
    b: Storage,
    watermark: u64,
    user: Seq<char>,
    snap: u64,
    since: u64,
)
    requires
        flush_through(r, a, mid, b, watermark),
        a.pins().holders().contains(since),
        since <= a.pins().flushes(),
    ensures
        b.finds_since(user, snap, since) == a.finds_since(user, snap, since),
{
    let when = a.state().mem_table.entries().len() > 0;
    storage::law_reader_ignores_freeze(a, mid, when, user, snap, since);
    match r {
        Ok(true) => {
            let t = choose|t: Option<SSTable>| #[trigger]
                storage::flushed_next(mid.state(), b.state(), watermark, t);
            storage::law_reader_ignores_flush(mid, b, watermark, t, user, snap, since);
        },
        Ok(false) => {},
        Err(_) => {
            assert(b.memory_since(since) =~= mid.memory_since(since));
        },
    }
}

proof fn lemma_flush_through_order(
    r: DbResult<bool>,
    a: Storage,
    mid: Storage,
    b: Storage,
    watermark: u64,
    top: u64,
)
    requires
        flush_through(r, a, mid, b, watermark),
        a.state().sound(),
        layers::recent_first(a.state().layers()),
        layers::at_most(a.state().layers(), top),
    ensures
        b.state().sound(),
        layers::recent_first(b.state().layers()),
        layers::at_most(b.state().layers(), top),
{
    mid.lemma_wf();
    if a.state().mem_table.entries().len() > 0 {
        storage::lemma_froze(a.state(), mid.state(), a.next_log());
        layers::law_freeze_keeps_order(a.state().layers(), top);
    }
    if let Ok(true) = r {
        let t = choose|t: Option<SSTable>| #[trigger]
            storage::flushed_next(mid.state(), b.state(), watermark, t);
        storage::law_flush_order(mid.state(), b.state(), watermark, t, top);
        storage::law_flush(mid.state(), b.state(), watermark, t, Seq::empty(), u64::MAX);
    }
}

impl DB {
    /// Begins a commit: checks it for conflicts, gives it its sequence number and
    /// logs it. Once the log is written, [`DB::finish_commit`] applies it. A commit
    /// that the log refuses leaves the record that begins it, and nothing else.
    pub fn begin_commit(&mut self, read_ts: Option<u64>, buffer: SortedMap<Value>) -> (r: DbResult<
        Pending,
    >)
        requires
            old(self).wf(),
            old(self).commit_room(),
            buffer.wf(),
        ensures
            r matches Ok(p) ==> {
                let bytes = writer::commit_bytes(
                    old(self).oracle().next_tx(),
                    scan_table::pairs(p.batch@),
                );
                &&& final(self).inner().state().wal.unwritten() == old(
                    self,
                ).inner().state().wal.unwritten() + bytes
                &&& p.commit_ts == old(self).oracle().next_seq()
                &&& p.batch@.len() == buffer.pairs().len()
                &&& forall|i: int|
                    0 <= i < p.batch@.len() ==> (#[trigger] p.batch@[i]).0@ == (KeyView {
                        user: buffer.pairs()[i].0,
                        seq: p.commit_ts,
                    }) && p.batch@[i].1@ == buffer.pairs()[i].1@
            },
            (read_ts matches Some(ts) ==> forall|i: int|
                0 <= i < buffer.pairs().len() && old(self).oracle().commits().contains_key(
                    (#[trigger] buffer.pairs()[i]).0,
                ) ==> old(self).oracle().commits()[buffer.pairs()[i].0] <= ts)
                && buffer.pairs().len() <= 65535 && (forall|i: int|
                0 <= i < buffer.pairs().len() ==> encode_utf8(
                    (#[trigger] buffer.pairs()[i]).0,
                ).len() <= 65535 && (buffer.pairs()[i].1@ matches ValueView::Put(s) ==> encode_utf8(
                    s,
                ).len() <= 65535)) ==> r is Ok,
            r is Ok ==> buffer.pairs().len() <= 65535 && (forall|i: int|
                0 <= i < buffer.pairs().len() ==> encode_utf8(
                    (#[trigger] buffer.pairs()[i]).0,
                ).len() <= 65535 && (buffer.pairs()[i].1@ matches ValueView::Put(s) ==> encode_utf8(
                    s,
                ).len() <= 65535)),
            forall|i: int|
                0 <= i < buffer.pairs().len() && old(self).oracle().commits().contains_key(
                    (#[trigger] buffer.pairs()[i]).0,
                ) && (read_ts matches Some(ts) && old(self).oracle().readers().contains_key(ts)
                    && old(self).oracle().commits()[buffer.pairs()[i].0] > ts) ==> r is Err,
            final(self).wf(),
            final(self).oracle().readers() == old(self).oracle().readers(),
            final(self).oracle().next_tx() == old(self).oracle().next_tx() + 1,
            final(self).inner().pins() == old(self).inner().pins(),
            match r {
                Ok(p) => began(*old(self), *final(self), p, read_ts, buffer.pairs()),
                Err(e) => oracle::attempted(
                    Some(e),
                    (old(self).oracle(), old(self).inner()),
                    (final(self).oracle(), final(self).inner()),
                    old(self).oracle().next_tx(),
                    read_ts,
                    buffer.pairs(),
                ),
            },
    {
        let tx_id: u64 = self.oracle.next_tx_id();
        let (commit_ts, batch) = match self.oracle.prepare(read_ts, &buffer) {
            Ok(p) => p,
            Err(e) => {
                return Err(e);
            },
        };
        proof {
            oracle::lemma_writes_fit(buffer.pairs(), commit_ts, tx_id);
            if let Some(ts) = read_ts {
                if old(self).oracle().readers().contains_key(ts) {
                    oracle::law_no_conflict_is_hidden(old(self).oracle, buffer.pairs(), ts);
                }
                oracle::law_conflict_is_on_a_written_key(
                    old(self).oracle().commits(),
                    buffer.pairs(),
                    ts,
                );
            }
        }
        match self.inner.log_batch(tx_id, &batch) {
            Ok(_) => {
                proof {
                    let es = scan_table::pairs(batch@);
                    assert(es.len() == batch@.len());
                    assert forall|i: int| 0 <= i < batch@.len() implies (
                    #[trigger] batch@[i]).0@ == (KeyView {
                        user: buffer.pairs()[i].0,
                        seq: commit_ts,
                    }) && batch@[i].1@ == buffer.pairs()[i].1@ by {
                        assert(es[i] == (batch@[i].0@, batch@[i].1@));
                        assert(es[i] == oracle::writes(buffer.pairs(), commit_ts)[i]);
                    }
                }
                Ok(Pending { commit_ts, batch, buffer })
            },
            Err(e) => Err(e),
        }
    }

    /// Applies a commit that has been logged: writes its versions to the table in
    /// memory, makes them visible, and freezes the table if it is full.
    pub fn finish_commit(&mut self, pending: Pending) -> (r: DbResult<()>)
        requires
            old(self).wf(),
            pending.wf(),
            old(self).oracle().visible() < pending.commit_ts < old(self).oracle().next_seq(),
            old(self).inner().next_log() < u64::MAX,
        ensures
            final(self).oracle().visible() == pending.commit_ts,
            forall|i: int|
                0 <= i < pending.buffer.pairs().len()
                    ==> final(self).oracle().commits().contains_key(
                    (#[trigger] pending.buffer.pairs()[i]).0,
                ) && final(self).oracle().commits()[pending.buffer.pairs()[i].0]
                    == pending.commit_ts,
            forall|k: Seq<char>|
                (forall|i: int|
                    0 <= i < pending.buffer.pairs().len() ==> (
                    #[trigger] pending.buffer.pairs()[i]).0 != k) ==> (
                #[trigger] final(self).oracle().commits().contains_key(k) <==> old(
                    self,
                ).oracle().commits().contains_key(k)) && (old(
                    self,
                ).oracle().commits().contains_key(k) ==> final(self).oracle().commits()[k] == old(
                    self,
                ).oracle().commits()[k]),
            final(self).inner().state().mem_table.usage()
                < final(self).inner().state().mem_table.limit(),
            r is Ok,
            final(self).wf(),
            final(self).oracle().next_tx() == old(self).oracle().next_tx(),
            final(self).inner().pins() == old(self).inner().pins(),
            applied(*old(self), *final(self), pending),
    {
        let ghost (before, p) = (*self, pending);
        let Pending { commit_ts, batch, buffer } = pending;
        self.inner.apply_batch(batch);
        self.oracle.publish(&buffer, commit_ts);
        let ghost mid = self.inner;
        let r = self.inner.freeze_if_full();
        proof {
            assert(apply_step(before.inner(), mid, self.inner(), p));
            let ps = p.buffer.pairs();
            let m = before.oracle().commits();
            assert forall|i: int| 0 <= i < ps.len() implies self.oracle().commits().contains_key(
                (#[trigger] ps[i]).0,
            ) && self.oracle().commits()[ps[i].0] == p.commit_ts by {
                oracle::lemma_stamped(m, ps, p.commit_ts, ps[i].0);
            }
            assert forall|k: Seq<char>|
                (forall|i: int| 0 <= i < ps.len() ==> (#[trigger] ps[i]).0 != k) implies (
            #[trigger] self.oracle().commits().contains_key(k) <==> m.contains_key(k)) && (
            m.contains_key(k) ==> self.oracle().commits()[k] == m[k]) by {
                oracle::lemma_stamped(m, ps, p.commit_ts, k);
            }
        }
        r
    }

    /// Makes the table that is to replace the oldest frozen table. Once its file
    /// is written, [`DB::finish_flush`] puts it in place.
    pub fn begin_flush(&mut self) -> (r: DbResult<Option<Flush>>)
        requires
            old(self).wf(),
            old(self).inner().state().storage.next_id() < u64::MAX,
        ensures
            old(self).inner().state().frozen@.len() > 0 && versions::are_small(
                old(self).inner().state().frozen@.last().entries(),
            ) ==> r is Ok,
            final(self).wf(),
            final(self).oracle() == old(self).oracle(),
            final(self).inner().log_dir() == old(self).inner().log_dir(),
            final(self).inner().next_log() == old(self).inner().next_log(),
            final(self).inner().waiting() == old(self).inner().waiting(),
            final(self).inner().stopping() == old(self).inner().stopping(),
            final(self).inner().pins() == old(self).inner().pins(),
            old(self).inner().state().frozen@.len() == 0 ==> {
                &&& r matches Ok(f) && f is None
                &&& final(self).inner().state() == old(self).inner().state()
            },
            old(self).inner().state().frozen@.len() > 0 ==> {
                &&& storage::unflushed(old(self).inner().state(), final(self).inner().state())
                &&& storage::prepared(
                    r,
                    old(self).inner().state(),
                    old(self).oracle().line(),
                )
            },
    {
        let read_ts_watermark: u64 = self.oracle.watermark();
        self.inner.prepare_flush(read_ts_watermark)
    }

    /// Puts the table of a flush in the place of the table in memory that it was
    /// made from.
    pub fn finish_flush(&mut self, flush: Flush)
        requires
            old(self).wf(),
            flush.table matches Some(t) ==> t.wf(),
            old(self).inner().pins().flushes() < u64::MAX,
        ensures
            final(self).wf(),
            final(self).oracle() == old(self).oracle(),
            storage::retired(old(self).inner(), final(self).inner(), flush.log),
            final(self).inner().log_dir() == old(self).inner().log_dir(),
            final(self).inner().next_log() == old(self).inner().next_log(),
            final(self).inner().waiting() == old(self).inner().waiting(),
            final(self).inner().stopping() == old(self).inner().stopping(),
            storage::completed(old(self).inner().state(), final(self).inner().state(), flush),
    {
        self.inner.complete_flush(flush);
    }

    /// Freezes the table in memory if it holds anything.
    pub fn freeze(&mut self) -> (r: DbResult<()>)
        requires
            old(self).wf(),
            old(self).inner().next_log() < u64::MAX,
        ensures
            r is Ok,
            final(self).wf(),
            final(self).oracle() == old(self).oracle(),
            storage::frozen_when(
                old(self).inner(),
                final(self).inner(),
                old(self).inner().state().mem_table.entries().len() > 0,
            ),
    {
        self.oracle.freeze(&mut self.inner)
    }

    /// Hands out what is to be written to the logs.
    pub fn take_writes(&mut self) -> (r: Vec<(String, Vec<u8>)>)
        requires
            old(self).wf(),
        ensures
            final(self).wf(),
            final(self).oracle() == old(self).oracle(),
            storage::same_tables(final(self).inner().state(), old(self).inner().state()),
            final(self).inner().log_dir() == old(self).inner().log_dir(),
            final(self).inner().stopping() == old(self).inner().stopping(),
            final(self).inner().pins() == old(self).inner().pins(),
            final(self).inner().next_log() == old(self).inner().next_log(),
            final(self).inner().waiting() == Seq::<(Seq<char>, Seq<u8>)>::empty(),
            final(self).inner().state().wal.unwritten() == Seq::<u8>::empty(),
            final(self).inner().state().wal.log() == old(self).inner().state().wal.log(),
            final(self).inner().state().wal.name() == old(self).inner().state().wal.name(),
            Seq::new(r@.len(), |i: int| (r@[i].0@, r@[i].1@)) == old(self).inner().waiting().push(
                (
                    path::joined(
                        old(self).inner().log_dir(),
                        old(self).inner().state().wal.name(),
                    ),
                    old(self).inner().state().wal.unwritten(),
                ),
            ),
    {
        self.inner.take_writes()
    }
}

/// Whether `b` is `a` once the commit `p` of the writes `ps` has been logged.
pub open spec fn began(
    a: DB,
    b: DB,
    p: Pending,
    read_ts: Option<u64>,
    ps: Seq<(Seq<char>, Value)>,
) -> bool {
    let (o, s, t) = (a.oracle(), a.inner(), b.inner());
    let es = oracle::writes(ps, o.next_seq());
    &&& p.wf()
    &&& p.commit_ts == o.next_seq()
    &&& p.buffer.pairs() == ps
    &&& !oracle::conflicts(o.remembered(), ps, read_ts)
    &&& CmdView::Batch(o.next_tx(), es).fits()
    &&& b.oracle().next_seq() == o.next_seq() + 1
    &&& b.oracle().readers() == o.readers()
    &&& oracle::same_numbers(o, b.oracle())
    &&& storage::same_tables(s.state(), t.state())
    &&& t.state().wal.name() == s.state().wal.name()
    &&& t.state().wal.log() == s.state().wal.log() + writer::commit_bytes(o.next_tx(), es)
    &&& t.state().wal.unwritten() == s.state().wal.unwritten() + writer::commit_bytes(
        o.next_tx(),
        es,
    )
    &&& t.waiting() == s.waiting()
    &&& t.next_log() == s.next_log()
    &&& t.log_dir() == s.log_dir()
    &&& t.stopping() == s.stopping()
}

/// Whether `mid` is `a` with the versions of `p` in the table in memory, and `b`
/// is `mid` with that table frozen if it is full.
pub open spec fn apply_step(a: Storage, mid: Storage, b: Storage, p: Pending) -> bool {
    let es = scan_table::pairs(p.batch@);
    &&& mid.wf()
    &&& mid.log_dir() == a.log_dir()
    &&& mid.next_log() == a.next_log()
    &&& mid.waiting() == a.waiting()
    &&& mid.stopping() == a.stopping()
    &&& mid.state().wal == a.state().wal
    &&& mid.state().frozen == a.state().frozen
    &&& mid.state().storage == a.state().storage
    &&& wal::took(a.state().mem_table, mid.state().mem_table, es)
    &&& mid.state().layers() == layers::wrote(a.state().layers(), es)
    &&& storage::frozen_when(
        mid,
        b,
        mid.state().mem_table.usage() >= mid.state().mem_table.limit(),
    )
}

/// Whether `b` is `a` once the commit `p` has been applied.
pub open spec fn applied(a: DB, b: DB, p: Pending) -> bool {
    &&& b.oracle().visible() == p.commit_ts
    &&& b.oracle().next_seq() == a.oracle().next_seq()
    &&& b.oracle().readers() == a.oracle().readers()
    &&& b.oracle().commits() == oracle::stamped(
        a.oracle().commits(),
        p.buffer.pairs(),
        p.commit_ts,
    )
    &&& b.oracle().remembered() == oracle::above(
        oracle::stamped(a.oracle().remembered(), p.buffer.pairs(), p.commit_ts),
        b.oracle().line(),
    )
    &&& exists|mid: Storage| #[trigger] apply_step(a.inner(), mid, b.inner(), p)
}

/// A commit that is begun and then finished is a commit.
pub proof fn law_commit_in_steps(
    a: DB,
    b: DB,
    c: DB,
    p: Pending,
    read_ts: Option<u64>,
    ps: Seq<(Seq<char>, Value)>,
)
    requires
        began(a, b, p, read_ts, ps),
        applied(b, c, p),
    ensures
        oracle::attempted(
            None,
            (a.oracle(), a.inner()),
            (c.oracle(), c.inner()),
            a.oracle().next_tx(),
            read_ts,
            ps,
        ),
{
    let (s, t) = (a.inner(), b.inner());
    let tx_id = a.oracle().next_tx();
    let es = oracle::writes(ps, p.commit_ts);
    let mid = choose|mid: Storage| #[trigger] apply_step(t, mid, c.inner(), p);
    assert(t.state().layers() =~= s.state().layers());
    assert forall|bs: Seq<wal::Batch>|
        s.state().logged(bs) && wal::fresh(bs, tx_id) implies #[trigger] mid.state().logged(
        bs.push((tx_id, Some(es))),
    ) by {
        storage::lemma_logged_push(s.state(), mid.state(), bs, tx_id, es);
    }
    assert(oracle::wrote_then_froze(s, mid, c.inner(), tx_id, es));
}

/// What may happen to a database while the table of a flush is written: commits and
/// attempts to commit, at once or in two steps, freezing, readers that come and go, and what waits for the
/// logs is taken.
pub open spec fn went_on(a: DB, b: DB) -> bool {
    &&& a.wf()
    &&& b.wf()
    &&& {
        ||| exists|e: Option<DbError>, tx_id: u64, read_ts: Option<u64>, ps: Seq<
            (Seq<char>, Value),
        >|
            sorted::keys_ascend(ps) && #[trigger] oracle::attempted(
                e,
                (a.oracle(), a.inner()),
                (b.oracle(), b.inner()),
                tx_id,
                read_ts,
                ps,
            )
        ||| exists|p: Pending|
            p.wf() && a.oracle().visible() < p.commit_ts && #[trigger] applied(a, b, p)
        ||| b.oracle().visible() == a.oracle().visible() && exists|when: bool| #[trigger]
            storage::frozen_when(a.inner(), b.inner(), when)
        ||| b.oracle().visible() == a.oracle().visible() && storage::same_tables(
            a.inner().state(),
            b.inner().state(),
        )
        ||| b.oracle().visible() == a.oracle().visible() && storage::unflushed(
            a.inner().state(),
            b.inner().state(),
        )
    }
}

/// Whatever happens while a table is written, the oldest frozen table stays, and
/// readers see what they saw.
proof fn lemma_went_on(a: DB, b: DB, user: Seq<char>, snap: u64)
    requires
        went_on(a, b),
        snap <= a.oracle().visible(),
    ensures
        a.oracle().visible() <= b.oracle().visible(),
        a.inner().state().frozen@.len() > 0 ==> b.inner().state().frozen@.len() > 0
            && b.inner().state().frozen@.last() == a.inner().state().frozen@.last(),
        layers::read(b.layers(), user, snap) == layers::read(a.layers(), user, snap),
{
    let (s, t) = (a.inner(), b.inner());
    a.lemma_wf();
    a.oracle.lemma_bounds();
    if exists|e: Option<DbError>, tx_id: u64, read_ts: Option<u64>, ps: Seq<(Seq<char>, Value)>|
        sorted::keys_ascend(ps) && #[trigger] oracle::attempted(
            e,
            (a.oracle(), s),
            (b.oracle(), t),
            tx_id,
            read_ts,
            ps,
        ) {
        let (e, tx_id, read_ts, ps) = choose|
            e: Option<DbError>,
            tx_id: u64,
            read_ts: Option<u64>,
            ps: Seq<(Seq<char>, Value)>,
        |
            sorted::keys_ascend(ps) && #[trigger] oracle::attempted(
                e,
                (a.oracle(), s),
                (b.oracle(), t),
                tx_id,
                read_ts,
                ps,
            );
        let ts = a.oracle().next_seq();
        let es = oracle::writes(ps, ts);
        if e is None {
            oracle::lemma_writes(ps, ts);
            oracle::law_commit_below(s, t, tx_id, es, ts, user, snap);
            let mid = choose|mid: Storage| #[trigger]
                oracle::wrote_then_froze(s, mid, t, tx_id, es);
            if mid.state().mem_table.usage() >= mid.state().mem_table.limit() {
                assert(t.state().frozen@ == seq![mid.state().mem_table] + mid.state().frozen@);
            }
        }
    } else if exists|p: Pending|
        p.wf() && a.oracle().visible() < p.commit_ts && #[trigger] applied(a, b, p) {
        let p = choose|p: Pending|
            p.wf() && a.oracle().visible() < p.commit_ts && #[trigger] applied(a, b, p);
        let es = oracle::writes(p.buffer.pairs(), p.commit_ts);
        oracle::lemma_writes(p.buffer.pairs(), p.commit_ts);
        layers::law_commit_is_invisible_below(a.layers(), es, p.commit_ts, user, snap);
        let mid = choose|mid: Storage| #[trigger] apply_step(s, mid, t, p);
        if mid.state().mem_table.usage() >= mid.state().mem_table.limit() {
            storage::law_freeze(mid.state(), t.state(), mid.next_log(), user, snap);
            assert(t.state().frozen@ == seq![mid.state().mem_table] + mid.state().frozen@);
        }
    } else if exists|when: bool| #[trigger] storage::frozen_when(s, t, when) {
        let when = choose|when: bool| #[trigger] storage::frozen_when(s, t, when);
        if when {
            storage::law_freeze(s.state(), t.state(), s.next_log(), user, snap);
        }
    } else {
        assert(b.layers() =~= a.layers());
    }
}

/// The same over several steps.
proof fn lemma_went_on_steps(ds: Seq<DB>, user: Seq<char>, snap: u64)
    requires
        ds.len() > 0,
        forall|i: int| 0 <= i < ds.len() - 1 ==> went_on(#[trigger] ds[i], ds[i + 1]),
        snap <= ds[0].oracle().visible(),
    ensures
        ds[0].oracle().visible() <= ds.last().oracle().visible(),
        ds[0].inner().state().frozen@.len() > 0 ==> ds.last().inner().state().frozen@.len() > 0
            && ds.last().inner().state().frozen@.last() == ds[0].inner().state().frozen@.last(),
        layers::read(ds.last().layers(), user, snap) == layers::read(ds[0].layers(), user, snap),
    decreases ds.len(),
{
    if ds.len() > 1 {
        let prev = ds.drop_last();
        assert forall|i: int| 0 <= i < prev.len() - 1 implies went_on(
            #[trigger] prev[i],
            prev[i + 1],
        ) by {
            assert(went_on(ds[i], ds[i + 1]));
        }
        lemma_went_on_steps(prev, user, snap);
        let n = ds.len() - 2;
        assert(went_on(ds[n], ds[n + 1]));
        lemma_went_on(ds[n], ds[n + 1], user, snap);
    }
}

/// A flush in two steps, with anything that may happen in between, is a flush: the
/// table that was made when it began replaces the oldest frozen table when it is
/// finished. Readers at or above the watermark that began before see what they saw,
/// but that an empty text comes back as a deletion mark; those that are registered
/// see even that as it was.
pub proof fn law_flush_in_steps(
    ds: Seq<DB>,
    b: DB,
    flush: Flush,
    watermark: u64,
    user: Seq<char>,
    snap: u64,
)
    requires
        ds.len() > 0,
        forall|i: int| 0 <= i < ds.len() - 1 ==> went_on(#[trigger] ds[i], ds[i + 1]),
        ds.last().wf(),
        ds[0].inner().state().frozen@.len() > 0,
        storage::prepared(Ok(Some(flush)), ds[0].inner().state(), watermark),
        storage::completed(ds.last().inner().state(), b.inner().state(), flush),
        storage::retired(ds.last().inner(), b.inner(), flush.log),
        b.oracle() == ds.last().oracle(),
        watermark <= snap <= ds[0].oracle().visible(),
    ensures
        storage::flushed(
            ds.last().inner().state(),
            b.inner().state(),
            watermark,
            flush.table,
        ),
        layers::same_after_flush(
            layers::read(ds[0].layers(), user, snap),
            layers::read(b.layers(), user, snap),
        ),
        ds.last().consistent() ==> b.consistent(),
        forall|since: u64|
            ds.last().inner().pins().holders().contains(since) && since
                <= ds.last().inner().pins().flushes() ==> #[trigger] b.inner().finds_since(
                user,
                snap,
                since,
            ) == ds.last().inner().finds_since(user, snap, since),
{
    let d = ds.last();
    let (s, t) = (d.inner().state(), b.inner().state());
    lemma_went_on_steps(ds, user, snap);
    d.lemma_wf();
    assert(storage::flushed(s, t, watermark, flush.table));
    storage::law_flush(s, t, watermark, flush.table, user, snap);
    if d.consistent() {
        storage::law_flush_order(s, t, watermark, flush.table, d.oracle().visible());
    }
    assert forall|since: u64|
        d.inner().pins().holders().contains(since) && since
            <= d.inner().pins().flushes() implies #[trigger] b.inner().finds_since(
        user,
        snap,
        since,
    ) == d.inner().finds_since(user, snap, since) by {
        storage::law_reader_ignores_flush(
            d.inner(),
            b.inner(),
            watermark,
            flush.table,
            user,
            snap,
            since,
        );
    }
}

/// Sequence numbers are never given out twice: in a database that was just opened
/// no version in memory, and none in a table that was written whole, reaches the
/// number of the next commit.
pub proof fn law_open_resumes_above(
    db: DB,
    dir: Seq<char>,
    log_names: Seq<Seq<char>>,
    logs: Seq<(Seq<char>, Seq<u8>)>,
    files: Seq<(String, Vec<u8>)>,
)
    requires
        opened(db, dir, log_names, logs, files),
        db.inner().state().sound(),
    ensures
        layers::at_most(db.layers(), (db.oracle().visible() - 1) as u64),
        db.oracle().visible() < db.oracle().next_seq(),
{
    let s = db.inner().state();
    let v = wal::restored(logs)->Ok_0;
    let top = (db.oracle().visible() - 1) as u64;
    wal::law_restored_sequences(logs);
    layers::law_tables_bound_sequences(s.storage.order());
    let ls = db.layers();
    let n = 1 + s.frozen@.len();
    assert forall|i: int, k: KeyView| 0 <= i < ls.len() && #[trigger] ls[i].contains_key(k) implies
        k.seq <= top by {
        if i == 0 {
            assert(ls[0] == s.mem_table@);
        } else if i < n {
            assert(ls[i] == state::memory_of(s.frozen@)[i - 1]);
            assert(wal::restored_layers(v)[i - 1].contains_key(k));
        } else {
            assert(ls[i] == layers::contents(s.storage.order())[i - n]);
        }
    }
}

/// A database that is opened from the logs and tables of another one, whatever
/// part of the logs is left, answers from the batches whose commit record is
/// whole.
pub proof fn law_open_after_crash(
    db: DB,
    dir: Seq<char>,
    log_names: Seq<Seq<char>>,
    ids: Seq<u64>,
    bss: Seq<Seq<wal::Batch>>,
    cuts: Seq<int>,
    files: Seq<(String, Vec<u8>)>,
    user: Seq<char>,
    snap: u64,
)
    requires
        ids.len() == bss.len() == cuts.len(),
        forall|i: int| 0 <= i < bss.len() ==> wal::batches_fit(#[trigger] bss[i]),
        forall|i: int|
            0 <= i < bss.len() ==> 0 <= #[trigger] cuts[i] <= crate::wal::log_bytes(
                wal::batch_cmds(bss[i]),
            ).len(),
        opened(db, dir, log_names, wal::crashed_logs(ids, bss, cuts), files),
    ensures
        layers::same_after_flush(
            layers::read(
                layers::tables_of_writes(wal::whole_writes(bss, cuts)) + layers::contents(
                    db.inner().state().storage.order(),
                ),
                user,
                snap,
            ),
            layers::read(db.layers(), user, snap),
        ),
{
    let s = db.inner().state();
    let disk_layers = layers::contents(s.storage.order());
    wal::law_restore(ids, bss, cuts);
    let ws = wal::whole_writes(bss, cuts);
    layers::law_reopening_keeps_answers(
        layers::tables_of_writes(ws),
        ws,
        disk_layers,
        user,
        snap,
    );
    assert(db.layers() =~= seq![Map::<KeyView, ValueView>::empty()] + layers::tables_of_writes(
        layers::all_stored(ws),
    ) + disk_layers);
}

/// A database that is opened where there are no logs and no tables is consistent and
/// has no values.
pub proof fn law_open_empty(
    db: DB,
    dir: Seq<char>,
    log_names: Seq<Seq<char>>,
    files: Seq<(String, Vec<u8>)>,
    user: Seq<char>,
)
    requires
        opened(db, dir, log_names, Seq::empty(), files),
        forall|i: int| 0 <= i < files.len() ==> disk::named_table((#[trigger] files[i]).0@) is None,
    ensures
        db.consistent(),
        db.value(user) is None,
{
    let s = db.inner().state();
    disk::law_loaded_tables(s.storage, path::joined(dir, disk::TABLES_DIR@), files);
    let empty = Map::<KeyView, ValueView>::empty();
    assert(db.layers() =~= seq![empty]);
    layers::lemma_read_one(empty, user, db.oracle().visible());
    versions::lemma_lookup_absent(empty, user, db.oracle().visible());
}

/// A database that is opened from the logs and the table files of a consistent one,
/// whatever part of the logs is left, is consistent.
pub proof fn law_crash_keeps_consistent(
    a: DB,
    b: DB,
    dir: Seq<char>,
    log_names: Seq<Seq<char>>,
    ids: Seq<u64>,
    bss: Seq<Seq<wal::Batch>>,
    cuts: Seq<int>,
    files: Seq<(String, Vec<u8>)>,
)
    requires
        a.consistent(),
        storage::logs_match(a.inner().state(), bss),
        ids.len() == bss.len() == cuts.len(),
        forall|i: int|
            0 <= i < bss.len() ==> 0 <= #[trigger] cuts[i] <= crate::wal::log_bytes(
                wal::batch_cmds(bss[i]),
            ).len(),
        opened(b, dir, log_names, wal::crashed_logs(ids, bss, cuts), files),
        layers::same_files(a.inner().state().storage.order(), b.inner().state().storage.order()),
    ensures
        b.consistent(),
{
    let (s, t) = (a.inner().state(), b.inner().state());
    let ls = wal::crashed_logs(ids, bss, cuts);
    let disk_layers = layers::contents(s.storage.order());
    disk::law_loaded_tables(t.storage, path::joined(dir, disk::TABLES_DIR@), files);
    layers::law_same_files(s.storage.order(), t.storage.order());
    wal::law_restore(ids, bss, cuts);
    let ps = wal::whole_writes(bss, cuts);
    let ws = storage::batch_writes(bss);
    wal::lemma_whole_writes(bss, cuts);
    layers::lemma_parts(ps, ws);
    layers::law_reopening_keeps_order(s.memory(), ws, ps, disk_layers);
    assert(b.layers() =~= seq![Map::<KeyView, ValueView>::empty()] + layers::tables_of_writes(
        layers::all_stored(ps),
    ) + disk_layers);
    law_open_resumes_above(b, dir, log_names, ls, files);
}

/// The lengths of the logs of batches.
pub open spec fn log_lengths(bss: Seq<Seq<wal::Batch>>) -> Seq<int> {
    Seq::new(
        bss.len(),
        |i: int| crate::wal::log_bytes(wal::batch_cmds(bss[i])).len() as int,
    )
}

/// A database that is opened again answers every reader as it did before: the
/// writes of its tables in memory come back from their logs, those on disk from
/// the tables. Only an empty text comes back as a deletion mark. Opened from the same
/// table files, it is consistent if it was before.
pub proof fn law_reopen(
    a: DB,
    b: DB,
    dir: Seq<char>,
    log_names: Seq<Seq<char>>,
    ids: Seq<u64>,
    bss: Seq<Seq<wal::Batch>>,
    files: Seq<(String, Vec<u8>)>,
    user: Seq<char>,
    snap: u64,
)
    requires
        storage::logs_match(a.inner().state(), bss),
        ids.len() == bss.len(),
        opened(b, dir, log_names, wal::crashed_logs(ids, bss, log_lengths(bss)), files),
        layers::contents(b.inner().state().storage.order()) == layers::contents(
            a.inner().state().storage.order(),
        ),
    ensures
        layers::same_after_flush(
            layers::read(a.layers(), user, snap),
            layers::read(b.layers(), user, snap),
        ),
        exists|ns: Seq<Seq<wal::Batch>>| #[trigger]
            storage::logs_match(b.inner().state(), ns) && ns == seq![Seq::<wal::Batch>::empty()]
                + bss,
        a.consistent() && layers::same_files(
            a.inner().state().storage.order(),
            b.inner().state().storage.order(),
        ) ==> b.consistent() && (match a.value(user) {
            Some(s) => s.len() > 0 ==> b.value(user) == Some(s),
            None => b.value(user) is None,
        }),
{
    let (s, t) = (a.inner().state(), b.inner().state());
    let cuts = log_lengths(bss);
    let disk_layers = layers::contents(s.storage.order());
    let ws = storage::batch_writes(bss);
    wal::law_restore(ids, bss, cuts);
    if a.consistent() && layers::same_files(s.storage.order(), t.storage.order()) {
        law_crash_keeps_consistent(a, b, dir, log_names, ids, bss, cuts, files);
        layers::lemma_read_top(a.layers(), a.oracle().visible(), user, u64::MAX);
        layers::lemma_read_top(b.layers(), b.oracle().visible(), user, u64::MAX);
    }
    assert forall|i: int| 0 <= i < bss.len() implies #[trigger] wal::whole_writes(bss, cuts)[i]
        == ws[i] by {
        assert(wal::batches_fit(bss[i]));
        wal::law_nothing_is_lost(bss[i]);
    }
    assert(wal::whole_writes(bss, cuts) =~= ws);
    layers::law_reopening_keeps_answers(s.memory(), ws, disk_layers, user, snap);
    layers::law_reopening_keeps_answers(s.memory(), ws, disk_layers, user, u64::MAX);
    let again = layers::tables_of_writes(layers::all_stored(ws));
    assert(b.layers() =~= seq![Map::<KeyView, ValueView>::empty()] + again + disk_layers);
    layers::law_same_after_flush(
        layers::read(a.layers(), user, u64::MAX),
        layers::read(b.layers(), user, u64::MAX),
    );
    let ns = seq![Seq::<wal::Batch>::empty()] + bss;
    assert(storage::logs_match(t, ns)) by {
        assert forall|i: int| 0 <= i < ns.len() implies wal::batches_fit(#[trigger] ns[i]) by {
            if i > 0 {
                assert(ns[i] == bss[i - 1]);
            }
        }
        assert forall|i: int| 0 <= i < t.memory().len() implies layers::holds(
            #[trigger] t.memory()[i],
            storage::batch_writes(ns)[i],
        ) by {
            if i > 0 {
                assert(t.memory()[i] == state::memory_of(t.frozen@)[i - 1]);
                assert(state::memory_of(t.frozen@)[i - 1] == again[i - 1]);
                assert(storage::batch_writes(ns)[i] == ws[i - 1]);
            } else {
                assert(t.memory()[0] == t.mem_table@);
            }
        }
    }
}

/// What is visible under a key is the text of its newest version: where no version of
/// the key is newer than the one in layer `i`, and no earlier layer has that version,
/// its text is visible, and nothing is if it is a deletion mark. Without a version
/// nothing is visible.
pub proof fn law_value_is_newest(db: DB, user: Seq<char>)
    requires
        db.consistent(),
    ensures
        forall|i: int, s: u64|
            0 <= i < db.layers().len() && #[trigger] db.layers()[i].contains_key(
                KeyView { user, seq: s },
            ) && (forall|j: int, x: u64|
                0 <= j < db.layers().len() && #[trigger] db.layers()[j].contains_key(
                    KeyView { user, seq: x },
                ) ==> x <= s) && (forall|j: int|
                0 <= j < i ==> !(#[trigger] db.layers()[j]).contains_key(KeyView { user, seq: s }))
                ==> db.value(user) == (match db.layers()[i][KeyView { user, seq: s }] {
                ValueView::Put(t) => Some(t),
                ValueView::Delete => None,
            }),
        (forall|j: int, x: u64|
            0 <= j < db.layers().len() ==> !#[trigger] db.layers()[j].contains_key(
                KeyView { user, seq: x },
            )) ==> db.value(user) is None,
{
    let ls = db.layers();
    let top = db.oracle().visible();
    assert forall|i: int, s: u64|
        0 <= i < ls.len() && #[trigger] ls[i].contains_key(KeyView { user, seq: s }) && (forall|
            j: int,
            x: u64,
        |
            0 <= j < ls.len() && #[trigger] ls[j].contains_key(KeyView { user, seq: x }) ==> x
                <= s) && (forall|j: int|
            0 <= j < i ==> !(#[trigger] ls[j]).contains_key(
                KeyView { user, seq: s },
            )) implies db.value(user) == (match ls[i][KeyView { user, seq: s }] {
        ValueView::Put(t) => Some(t),
        ValueView::Delete => None,
    }) by {
        assert(s <= top);
        layers::law_newest_version_answers(ls, user, top, i, s);
    }
    if forall|j: int, x: u64|
        0 <= j < ls.len() ==> !#[trigger] ls[j].contains_key(KeyView { user, seq: x }) {
        layers::law_no_version_answers_nothing(ls, user, top);
    }
}

/// A database that is opened begins a log of its own: its number is above that of every
/// log in the directory, and the next table gets one above that of every table.
pub proof fn law_open_begins_a_new_log(
    db: DB,
    dir: Seq<char>,
    log_names: Seq<Seq<char>>,
    logs: Seq<(Seq<char>, Seq<u8>)>,
    files: Seq<(String, Vec<u8>)>,
)
    requires
        opened(db, dir, log_names, logs, files),
    ensures
        forall|i: int|
            0 <= i < log_names.len() ==> (text::parsed_number(
                #[trigger] log_names[i],
                0xFFFF_FFFF_FFFF_FFFF,
            ) matches Some(n) ==> n < db.inner().state().mem_table.number()),
        forall|i: int|
            0 <= i < files.len() ==> (disk::named_table((#[trigger] files[i]).0@) matches Some(t)
                ==> t.1 < db.inner().state().storage.next_id()),
        db.inner().state().mem_table.number() < db.inner().next_log(),
{
    assert forall|i: int| 0 <= i < log_names.len() implies (text::parsed_number(
        #[trigger] log_names[i],
        0xFFFF_FFFF_FFFF_FFFF,
    ) matches Some(n) ==> n < db.inner().state().mem_table.number()) by {
        if let Some(n) = text::parsed_number(log_names[i], 0xFFFF_FFFF_FFFF_FFFF) {
            wal::law_log_numbers(log_names, n as u64);
            assert(wal::parsed_ids(log_names).contains(n as u64));
        }
    }
    disk::law_load_order(db.inner().state().storage, path::joined(dir, disk::TABLES_DIR@), files);
}

} // verus!
