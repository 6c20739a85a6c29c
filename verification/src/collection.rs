//! A collection: a store of plain writes, each with a sequence number of its own.

use vstd::prelude::*;
use vstd::utf8::*;

use crate::collection::state::State;
use crate::collection::wal::Wal;
use crate::common::error::{DbError, DbResult};
use crate::common::key::{Key, KeyView};
use crate::common::lookup::LookupView;
use crate::common::path;
use crate::common::text;
use crate::common::value::{Value, ValueView};
use crate::common::versions;
use crate::common::versions::Entry;
use crate::memtable::list::{node, MAX_HEIGHT};
use crate::memtable::{MemTable, MAX_SIZE};
use crate::sstable::encode;
use crate::sstable::layout;
use crate::sstable::meta;
use crate::sstable::scan::compaction;
use crate::sstable::table;
use crate::sstable::table::SSTable;
use crate::storage::layers;
use crate::storage::layers::Versions;
use crate::storage::state as tables;
use crate::storage::storage as disk;
use crate::storage::storage::DiskStorage;
use crate::storage::wal as logs;
use crate::storage::Flush;
use crate::wal::wal::WalReader;

pub mod state;
pub mod wal;

verus! {

/// So many frozen tables may wait for the flusher before writers have to wait.
pub const MAX_FROZEN: usize = 4;

/// Milliseconds after which a writer that waits looks again.
pub const BACKPRESSURE_POLL: u64 = 50;

/// A store of plain writes.
pub struct Collection {
    seq: u64,
    state: State,
    wal: Wal,
    retired: Vec<(String, Vec<u8>)>,
    shutdown: bool,
}

/// Whether `b` is `a` once the table in memory is frozen and the log `id` begun.
pub open spec fn froze(a: State, b: State, id: u64) -> bool {
    &&& b.wal.name() == text::decimal_text(id as nat)
    &&& b.wal.log() == Seq::<u8>::empty()
    &&& b.wal.unwritten() == Seq::<u8>::empty()
    &&& b.mem_table@ == Map::<KeyView, ValueView>::empty()
    &&& b.mem_table.number() == id
    &&& b.mem_table.usage() == 0
    &&& b.mem_table.bytes() == 0
    &&& b.mem_table.limit() == MAX_SIZE
    &&& b.frozen@ == seq![a.mem_table] + a.frozen@
    &&& b.storage == a.storage
}

/// What a flush writes of the oldest frozen table: the newest version of each key,
/// deletion marks included.
pub open spec fn flush_of(s: State) -> Seq<Entry> {
    compaction::kept(None, s.frozen@.last().entries(), false, u64::MAX)
}

/// Whether `b` is `a` once its oldest frozen table has been flushed to `t`.
pub open spec fn flushed(a: State, b: State, t: Option<SSTable>) -> bool {
    let ks = flush_of(a);
    &&& a.frozen@.len() > 0
    &&& b.frozen@ == a.frozen@.drop_last()
    &&& b.mem_table == a.mem_table
    &&& b.wal == a.wal
    &&& match t {
        Some(t) => {
            &&& table::is_table(ks, t.bytes(), t.meta@)
            &&& b.storage.order() == seq![t] + a.storage.order()
        },
        None => ks.len() == 0 && b.storage.order() == a.storage.order(),
    }
}

/// Whether `b` is `a` once its oldest frozen table has been flushed to `t`, which
/// has the next number of a table.
pub open spec fn flushed_next(a: State, b: State, t: Option<SSTable>) -> bool {
    &&& flushed(a, b, t)
    &&& b.storage.dir() == a.storage.dir()
    &&& b.storage.next_id() == a.storage.next_id() + 1
    &&& b.storage.loaded_seq() == a.storage.loaded_seq()
    &&& match t {
        Some(_) => disk::one_more_at_l0(a.storage, b.storage),
        None => disk::same_levels(a.storage, b.storage),
    }
    &&& t matches Some(t) ==> t.meta.path@ == path::joined(
        a.storage.dir(),
        disk::table_name(0, a.storage.next_id()),
    )
}

/// Whether `b` is `a` once its oldest frozen table could not be flushed: only the
/// number of the table is used up.
pub open spec fn unflushed(a: State, b: State) -> bool {
    &&& b.wal == a.wal
    &&& b.mem_table == a.mem_table
    &&& b.frozen == a.frozen
    &&& b.storage.order() == a.storage.order()
    &&& b.storage.dir() == a.storage.dir()
    &&& b.storage.next_id() == a.storage.next_id() + 1
    &&& b.storage.loaded_seq() == a.storage.loaded_seq()
    &&& disk::same_levels(a.storage, b.storage)
}

/// Whether `b` is `a` with the table of a flush on disk, and without the table in
/// memory that it was made from, if that is the oldest frozen one.
pub open spec fn completed(a: State, b: State, flush: Flush) -> bool {
    &&& b.wal == a.wal
    &&& b.mem_table == a.mem_table
    &&& b.storage.dir() == a.storage.dir()
    &&& b.storage.next_id() == a.storage.next_id()
    &&& b.storage.loaded_seq() == a.storage.loaded_seq()
    &&& match flush.table {
        Some(_) => disk::one_more_at_l0(a.storage, b.storage),
        None => disk::same_levels(a.storage, b.storage),
    }
    &&& b.storage.order() == (match flush.table {
        Some(t) => seq![t] + a.storage.order(),
        None => a.storage.order(),
    })
    &&& b.frozen@ == (if a.frozen@.len() > 0 && a.frozen@.last().number() == flush.log {
        a.frozen@.drop_last()
    } else {
        a.frozen@
    })
}

/// Whether `b` is `a` with its table in memory frozen when `when` holds, and `a`
/// otherwise.
pub open spec fn frozen_when(a: Collection, b: Collection, when: bool) -> bool {
    &&& b.wf()
    &&& b.log_dir() == a.log_dir()
    &&& b.next_seq() == a.next_seq()
    &&& b.stopping() == a.stopping()
    &&& !when ==> b == a
    &&& when ==> {
        &&& froze(a.state(), b.state(), a.next_log())
        &&& b.next_log() == a.next_log() + 1
        &&& b.waiting() == a.waiting().push(
            (path::joined(a.log_dir(), a.state().wal.name()), a.state().wal.unwritten()),
        )
    }
}

/// How the logs stand once the table in memory was frozen if it held anything: a
/// new log was begun, and what the last one had to write waits with the rest.
pub open spec fn logs_after_freeze(a: Collection, b: Collection) -> bool {
    let when = a.state().mem_table.entries().len() > 0;
    &&& b.log_dir() == a.log_dir()
    &&& b.next_log() == a.next_log() + (if when {
        1int
    } else {
        0int
    })
    &&& b.waiting() == (if when {
        a.waiting().push(
            (path::joined(a.log_dir(), a.state().wal.name()), a.state().wal.unwritten()),
        )
    } else {
        a.waiting()
    })
    &&& if when {
        &&& b.state().wal.name() == text::decimal_text(a.next_log() as nat)
        &&& b.state().wal.log() == Seq::<u8>::empty()
        &&& b.state().wal.unwritten() == Seq::<u8>::empty()
        &&& b.state().mem_table.number() == a.next_log()
        &&& b.state().mem_table.usage() == 0
        &&& b.state().mem_table.bytes() == 0
        &&& b.state().mem_table.limit() == MAX_SIZE
    } else {
        b.state().wal == a.state().wal && b.state().mem_table == a.state().mem_table
    }
}

/// Whether `b` holds what is left of the frozen tables of `a`, with its table in
/// memory, after the flush of all of them ended as `r` tells: each table that is
/// gone from memory has taken a number, and so has the one that could not be
/// written.
pub open spec fn flushed_all(r: DbResult<()>, a: Collection, b: Collection) -> bool {
    let frozen = if a.state().mem_table.entries().len() > 0 {
        seq![a.state().mem_table] + a.state().frozen@
    } else {
        a.state().frozen@
    };
    let left = b.state().frozen@.len();
    &&& logs_after_freeze(a, b)
    &&& left <= frozen.len()
    &&& b.state().frozen@ == frozen.take(left as int)
    &&& b.state().mem_table.entries().len() == 0
    &&& b.state().storage.dir() == a.state().storage.dir()
    &&& b.state().storage.next_id() == a.state().storage.next_id() + frozen.len() - left + (
    if r is Err {
        1int
    } else {
        0int
    })
    &&& match r {
        Ok(_) => left == 0,
        Err(e) => e is InvalidInt && left > 0 && disk::unwritable(flush_of(b.state())),
    }
}

/// Whether `b` is `a` with `e` in its log and its table in memory.
pub open spec fn wrote(a: Collection, b: Collection, e: Entry) -> bool {
    &&& b.wf()
    &&& b.log_dir() == a.log_dir()
    &&& b.next_log() == a.next_log()
    &&& b.next_seq() == a.next_seq() + 1
    &&& b.waiting() == a.waiting()
    &&& b.stopping() == a.stopping()
    &&& b.state().frozen == a.state().frozen
    &&& b.state().storage == a.state().storage
    &&& b.state().wal.name() == a.state().wal.name()
    &&& b.state().wal.log() == a.state().wal.log() + encode::entry_bytes(e)
    &&& b.state().wal.unwritten() == a.state().wal.unwritten() + encode::entry_bytes(e)
    &&& logs::took(a.state().mem_table, b.state().mem_table, seq![e])
}

/// Whether `mid` is `a` with `e` written, and `b` is `mid` with its table in
/// memory frozen if that is full.
pub open spec fn wrote_then_froze(a: Collection, mid: Collection, b: Collection, e: Entry) -> bool {
    &&& wrote(a, mid, e)
    &&& frozen_when(
        mid,
        b,
        mid.state().mem_table.usage() >= mid.state().mem_table.limit(),
    )
}

impl Collection {
    /// The sequence number of the next write.
    pub closed spec fn next_seq(&self) -> u64 {
        self.seq
    }

    /// The state.
    pub closed spec fn state(&self) -> State {
        self.state
    }

    /// The directory of the logs.
    pub closed spec fn log_dir(&self) -> Seq<char> {
        self.wal.dir()
    }

    /// The number of the next log.
    pub closed spec fn next_log(&self) -> u64 {
        self.wal.next_id()
    }

    /// The entries of earlier logs that wait to be written: their files and the
    /// bytes.
    pub closed spec fn waiting(&self) -> Seq<(Seq<char>, Seq<u8>)> {
        Seq::new(self.retired@.len(), |i: int| (self.retired@[i].0@, self.retired@[i].1@))
    }

    /// Whether the store is being shut down.
    pub closed spec fn stopping(&self) -> bool {
        self.shutdown
    }

    /// The tables are in good order.
    pub closed spec fn wf(&self) -> bool {
        self.state.wf()
    }

    /// The tables of a store in good order are in good order.
    pub proof fn lemma_wf(&self)
        requires
            self.wf(),
        ensures
            self.state().wf(),
    {
    }

    /// All versions, the newest layer first.
    pub open spec fn layers(&self) -> Seq<Versions> {
        self.state().layers()
    }

    /// Whether there are numbers left for another write and another log.
    pub open spec fn room(&self) -> bool {
        &&& self.next_seq() < u64::MAX
        &&& self.next_log() < u64::MAX
    }

    /// Whether the tables on disk were written whole, no layer holds a newer
    /// version of a key than an earlier one, and all versions are below the next.
    pub open spec fn consistent(&self) -> bool {
        &&& self.state().sound()
        &&& self.next_seq() > 0
        &&& layers::recent_first(self.layers())
        &&& layers::at_most(self.layers(), (self.next_seq() - 1) as u64)
    }

    /// The value under `user`.
    pub open spec fn value(&self, user: Seq<char>) -> Option<Seq<char>> {
        layers::read(self.layers(), user, u64::MAX).answer()
    }

    /// Opens a collection from its files: the names in the log directory, the logs
    /// from the newest to the oldest, and the files in the table directory.
    pub fn open(
        dir: &str,
        log_names: &Vec<String>,
        wals: Vec<WalReader>,
        files: Vec<(String, Vec<u8>)>,
    ) -> (r: DbResult<Self>)
        requires
            forall|i: int|
                0 <= i < wals@.len() ==> (#[trigger] wals@[i]).wf() && wals@[i].at() == 0,
        ensures
            (wal::restored(wal::logs_of(wals@)) matches Ok(v) && v.max_seq < 0xFFFF_FFFF_FFFF_FFFE) && (
                forall|i: int|
                0 <= i < log_names@.len() ==> (text::parsed_number(
                    (#[trigger] log_names@[i])@,
                    0xFFFF_FFFF_FFFF_FFFF,
                ) matches Some(n) ==> n < 0xFFFF_FFFF_FFFF_FFFE)) && (forall|i: int|
                0 <= i < files@.len() ==> (disk::named_table(
                    (#[trigger] files@[i]).0@,
                ) matches Some(t) ==> t.1 < 0xFFFF_FFFF_FFFF_FFFF && (meta::parsed_meta(
                    files@[i].1@,
                ) matches Ok(m) && m.footer.largest_seq < 0xFFFF_FFFF_FFFF_FFFE))) ==> r is Ok,
            match r {
                Ok(c) => opened(c, dir@, logs::texts(log_names@), wal::logs_of(wals@), files@),
                Err(e) => unopenable(e, logs::texts(log_names@), wal::logs_of(wals@), files@),
            },
    {
        proof {
            let names = logs::texts(log_names@);
            if (wal::restored(wal::logs_of(wals@)) matches Ok(v) && v.max_seq < 0xFFFF_FFFF_FFFF_FFFE) && (
                forall|i: int|
                0 <= i < log_names@.len() ==> (text::parsed_number(
                    (#[trigger] log_names@[i])@,
                    0xFFFF_FFFF_FFFF_FFFF,
                ) matches Some(n) ==> n < 0xFFFF_FFFF_FFFF_FFFE)) && (forall|i: int|
                0 <= i < files@.len() ==> (disk::named_table(
                    (#[trigger] files@[i]).0@,
                ) matches Some(t) ==> t.1 < 0xFFFF_FFFF_FFFF_FFFF && (meta::parsed_meta(
                    files@[i].1@,
                ) matches Ok(m) && m.footer.largest_seq < 0xFFFF_FFFF_FFFF_FFFE))) {
                assert forall|i: int| 0 <= i < names.len() implies (text::parsed_number(
                    #[trigger] names[i],
                    0xFFFF_FFFF_FFFF_FFFF,
                ) matches Some(n) ==> n < 0xFFFF_FFFF_FFFF_FFFE) by {
                    assert(names[i] == log_names@[i]@);
                }
                assert forall|e: DbError| !#[trigger] unopenable(
                    e,
                    names,
                    wal::logs_of(wals@),
                    files@,
                ) by {
                    law_readable_collection_opens(e, names, wal::logs_of(wals@), files@);
                }
            }
        }
        let ghost (names, read, given) = (logs::texts(log_names@), wal::logs_of(wals@), files@);
        let wal = match Wal::new(dir, log_names) {
            Ok(wal) => wal,
            Err(e) => {
                assert(unopenable(e, names, read, given));
                return Err(e);
            },
        };
        let restored = match wal.restore(wals) {
            Ok(restored) => restored,
            Err(e) => {
                assert(unopenable(e, names, read, given));
                return Err(e);
            },
        };
        let storage = match DiskStorage::load(dir, files) {
            Ok(storage) => storage,
            Err(e) => {
                assert(unopenable(e, names, read, given));
                return Err(e);
            },
        };
        let max_seq: u64 = if storage.max_seq() >= restored.max_seq {
            storage.max_seq()
        } else {
            restored.max_seq
        };
        if !wal.has_room() || max_seq == u64::MAX {
            proof {
                assert(!numbers_left(
                    wal.next_id(),
                    logs::larger(storage.loaded_seq(), restored@.max_seq),
                ));
                assert(disk::loaded(storage, path::joined(dir@, disk::TABLES_DIR@), files@));
            }
            let e = DbError::invalid_state("numbers are used up");
            assert(unopenable(e, names, read, given));
            return Err(e);
        }
        let ghost v = restored@;
        let ghost first = wal.next_id();
        let mut wal = wal;
        let writer = match wal.new_writer() {
            Ok(w) => w,
            Err(e) => {
                assert(unopenable(e, names, read, given));
                return Err(e);
            },
        };
        proof {
            text::law_decimal_round_trip(first as nat, u64::MAX as nat);
        }
        match State::new(writer, restored.tables, storage) {
            Ok(state) => {
                let c = Collection {
                    seq: max_seq + 1,
                    state,
                    wal,
                    retired: Vec::new(),
                    shutdown: false,
                };
                proof {
                    assert(tables::memory_of(c.state().frozen@) =~= wal::restored_layers(v));
                    assert(c.waiting() =~= Seq::<(Seq<char>, Seq<u8>)>::empty());
                }
                Ok(c)
            },
            Err(e) => Err(e),
        }
    }
}

/// Whether a collection can be opened with these numbers.
pub open spec fn numbers_left(next_log: u64, max_seq: u64) -> bool {
    next_log < u64::MAX && max_seq < u64::MAX
}

/// Whether `c` is the collection in these files.
pub open spec fn opened(
    c: Collection,
    dir: Seq<char>,
    log_names: Seq<Seq<char>>,
    ls: Seq<(Seq<char>, Seq<u8>)>,
    files: Seq<(String, Vec<u8>)>,
) -> bool {
    let s = c.state();
    &&& c.wf()
    &&& wal::restored(ls) matches Ok(v) && {
        &&& tables::memory_of(s.frozen@) == wal::restored_layers(v)
        &&& s.frozen@.len() == v.tables.len()
        &&& forall|i: int|
            0 <= i < v.tables.len() ==> (#[trigger] s.frozen@[i]).number() == v.tables[i].0
        &&& c.next_seq() == logs::larger(s.storage.loaded_seq(), v.max_seq) + 1
    }
    &&& disk::loaded(s.storage, path::joined(dir, disk::TABLES_DIR@), files)
    &&& !disk::ids_used_up(files)
    &&& !logs::parsed_ids(log_names).contains(u64::MAX)
    &&& c.log_dir() == path::joined(dir, wal::WAL_DIR@)
    &&& c.next_log() >= 2
    &&& logs::is_latest(logs::parsed_ids(log_names), (c.next_log() - 2) as u64)
    &&& s.mem_table.number() == c.next_log() - 1
    &&& s.wal.name() == text::decimal_text((c.next_log() - 1) as nat)
    &&& s.logged(Seq::empty())
    &&& s.wal.unwritten() == Seq::<u8>::empty()
    &&& s.mem_table@ == Map::<KeyView, ValueView>::empty()
    &&& s.mem_table.usage() == 0
    &&& s.mem_table.bytes() == 0
    &&& s.mem_table.limit() == MAX_SIZE
    &&& c.waiting() == Seq::<(Seq<char>, Seq<u8>)>::empty()
    &&& !c.stopping()
}

/// Whether `e` reports why these files are no collection: there is no number left
/// for another log, the logs cannot be replayed, the tables cannot be opened, or the
/// numbers are used up.
pub open spec fn unopenable(
    e: DbError,
    log_names: Seq<Seq<char>>,
    ls: Seq<(Seq<char>, Seq<u8>)>,
    files: Seq<(String, Vec<u8>)>,
) -> bool {
    if logs::parsed_ids(log_names).contains(u64::MAX) {
        e.is_state("log numbers are used up"@)
    } else {
        match wal::restored(ls) {
            Err(t) => logs::reports(e, t),
            Ok(v) => disk::unloadable(e, files) || {
                &&& e.is_state("numbers are used up"@)
                &&& exists|next_log: u64, s: DiskStorage, d: Seq<char>|
                    {
                        &&& next_log > 0
                        &&& logs::is_latest(logs::parsed_ids(log_names), (next_log - 1) as u64)
                        &&& #[trigger] disk::loaded(s, d, files)
                        &&& !#[trigger] numbers_left(
                            next_log,
                            logs::larger(s.loaded_seq(), v.max_seq),
                        )
                    }
            },
        }
    }
}

/// A collection opens whenever its logs can be replayed, its tables can be read, and the
/// highest number of a log, of a write and of a table leave room for the next: below
/// the two highest numbers of eight bytes none is refused.
pub proof fn law_readable_collection_opens(
    e: DbError,
    log_names: Seq<Seq<char>>,
    ls: Seq<(Seq<char>, Seq<u8>)>,
    files: Seq<(String, Vec<u8>)>,
)
    requires
        wal::restored(ls) matches Ok(v) && v.max_seq < 0xFFFF_FFFF_FFFF_FFFE,
        forall|i: int|
            0 <= i < log_names.len() ==> (text::parsed_number(
                #[trigger] log_names[i],
                0xFFFF_FFFF_FFFF_FFFF,
            ) matches Some(n) ==> n < 0xFFFF_FFFF_FFFF_FFFE),
        forall|i: int|
            0 <= i < files.len() ==> (disk::named_table((#[trigger] files[i]).0@) matches Some(t)
                ==> t.1 < 0xFFFF_FFFF_FFFF_FFFF && (meta::parsed_meta(files[i].1@) matches Ok(m)
                && m.footer.largest_seq < 0xFFFF_FFFF_FFFF_FFFE)),
    ensures
        !unopenable(e, log_names, ls, files),
{
    let v = wal::restored(ls)->Ok_0;
    logs::law_log_numbers(log_names, u64::MAX);
    disk::law_readable_tables_are_loaded(e, files);
    assert forall|next_log: u64, s: DiskStorage, d: Seq<char>|
        next_log > 0 && logs::is_latest(logs::parsed_ids(log_names), (next_log - 1) as u64)
            && #[trigger] disk::loaded(s, d, files) implies #[trigger] numbers_left(
        next_log,
        logs::larger(s.loaded_seq(), v.max_seq),
    ) by {
        logs::law_log_numbers(log_names, (next_log - 1) as u64);
        disk::law_loaded_sequence(s, d, files);
    }
}

/// A write that has been logged and is not applied yet.
pub struct PendingWrite {
    /// The key with its sequence number.
    pub key: Key,
    /// The value.
    pub value: Value,
}

impl Collection {
    /// Gives a write its sequence number and logs it. Once the log is written,
    /// [`Collection::apply`] applies it. What cannot be logged is refused.
    pub fn log(&mut self, key: &str, value: &str) -> (r: DbResult<PendingWrite>)
        requires
            old(self).wf(),
            old(self).next_seq() < u64::MAX,
        ensures
            final(self).wf(),
            final(self).next_seq() == old(self).next_seq() + 1,
            final(self).next_log() == old(self).next_log(),
            final(self).log_dir() == old(self).log_dir(),
            final(self).waiting() == old(self).waiting(),
            final(self).stopping() == old(self).stopping(),
            final(self).state().mem_table == old(self).state().mem_table,
            final(self).state().frozen == old(self).state().frozen,
            final(self).state().storage == old(self).state().storage,
            final(self).state().wal.name() == old(self).state().wal.name(),
            r is Ok <==> encode::entry_fits(write_of(key@, value@, old(self).next_seq())),
            r is Ok <==> encode_utf8(key@).len() <= 65535 && encode_utf8(value@).len() <= 65535,
            match r {
                Ok(w) => {
                    let e = write_of(key@, value@, old(self).next_seq());
                    &&& (w.key@, w.value@) == e
                    &&& final(self).state().wal.log() == old(self).state().wal.log()
                        + encode::entry_bytes(e)
                    &&& final(self).state().wal.unwritten() == old(self).state().wal.unwritten()
                        + encode::entry_bytes(e)
                },
                Err(e) => {
                    &&& e is InvalidInt
                    &&& final(self).state().wal.log() == old(self).state().wal.log()
                    &&& final(self).state().wal.unwritten() == old(self).state().wal.unwritten()
                },
            },
    {
        let seq: u64 = self.seq;
        self.seq = seq + 1;
        let key = Key::new(key, seq);
        let value = Value::set(value);
        match self.state.wal.append(&key, &value) {
            Ok(_) => Ok(PendingWrite { key, value }),
            Err(e) => Err(e),
        }
    }

    /// Writes a version to the table in memory, and freezes that if it is full.
    /// Returns whether it was.
    pub fn apply(&mut self, write: PendingWrite) -> (r: DbResult<bool>)
        requires
            old(self).wf(),
            old(self).next_log() < u64::MAX,
        ensures
            r is Ok,
            final(self).wf(),
            exists|mid: Collection| #[trigger]
                put_in(*old(self), mid, (write.key@, write.value@)) && frozen_when(
                    mid,
                    *final(self),
                    mid.state().mem_table.usage() >= mid.state().mem_table.limit(),
                ) && (r matches Ok(full) && full == (mid.state().mem_table.usage()
                    >= mid.state().mem_table.limit())),
    {
        let ghost before = *self;
        let PendingWrite { key, value } = write;
        let ghost e = (key@, value@);
        self.state.mem_table.put(key, value);
        let ghost mid = *self;
        proof {
            let (m, n) = (before.state().mem_table, mid.state().mem_table);
            let height = if m@.contains_key(e.0) {
                1
            } else {
                choose|height: nat|
                    1 <= height <= MAX_HEIGHT && n.usage() == m.usage().wrapping_add(
                        #[trigger] node::node_size(e.0, e.1, height),
                    ) && n.bytes() == m.bytes() + node::node_bytes(e.0, e.1, height)
            };
            assert(seq![e].drop_last() =~= Seq::<Entry>::empty());
            logs::lemma_took_none(m);
            logs::lemma_took_push(m, m, n, seq![e], height);
            assert(put_in(before, mid, e));
        }
        if self.state.mem_table.is_full() {
            return match self.try_freeze() {
                Ok(_) => Ok(true),
                Err(e) => Err(e),
            };
        }
        Ok(false)
    }

    /// Gives `key` the value `value`: logs the write, then writes it to the table
    /// in memory, and freezes that if it is full. What cannot be logged is
    /// refused, and nothing of it is written.
    pub fn set(&mut self, key: &str, value: &str) -> (r: DbResult<()>)
        requires
            old(self).wf(),
            old(self).room(),
        ensures
            final(self).wf(),
            final(self).next_seq() == old(self).next_seq() + 1,
            r is Ok <==> encode::entry_fits(write_of(key@, value@, old(self).next_seq())),
            r is Ok <==> encode_utf8(key@).len() <= 65535 && encode_utf8(value@).len() <= 65535,
            r is Ok ==> exists|mid: Collection| #[trigger]
                wrote_then_froze(
                    *old(self),
                    mid,
                    *final(self),
                    write_of(key@, value@, old(self).next_seq()),
                ),
            r matches Err(e) ==> {
                &&& e is InvalidInt
                &&& final(self).layers() == old(self).layers()
                &&& final(self).state().mem_table == old(self).state().mem_table
                &&& final(self).state().frozen == old(self).state().frozen
                &&& final(self).state().storage == old(self).state().storage
                &&& final(self).state().wal.name() == old(self).state().wal.name()
                &&& final(self).state().wal.log() == old(self).state().wal.log()
                &&& final(self).state().wal.unwritten() == old(self).state().wal.unwritten()
                &&& final(self).next_log() == old(self).next_log()
                &&& final(self).log_dir() == old(self).log_dir()
                &&& final(self).waiting() == old(self).waiting()
                &&& final(self).stopping() == old(self).stopping()
            },
            r is Ok ==> {
                let (a, b) = (old(self).state(), final(self).state());
                &&& b.mem_table.usage() < b.mem_table.limit()
                &&& b.storage == a.storage
                &&& b.frozen@ == a.frozen@ || (b.frozen@.len() == a.frozen@.len() + 1
                    && b.frozen@.drop_first() == a.frozen@ && b.frozen@[0].usage()
                    >= b.frozen@[0].limit())
            },
            old(self).consistent() ==> final(self).consistent(),
            old(self).consistent() && r is Ok ==> final(self).value(key@) == Some(value@),
            forall|user: Seq<char>|
                old(self).consistent() && (user != key@ || r is Err)
                    ==> #[trigger] final(self).value(user) == old(self).value(user),
    {
        let ghost before = *self;
        let ghost e = write_of(key@, value@, self.seq);
        let write = match self.log(key, value) {
            Ok(write) => write,
            Err(e) => {
                assert(self.layers() =~= before.layers());
                proof {
                    if before.consistent() {
                        lemma_at_most_higher(
                            before.layers(),
                            (before.seq - 1) as u64,
                            (self.seq - 1) as u64,
                        );
                    }
                }
                return Err(e);
            },
        };
        let ghost logged = *self;
        let r = match self.apply(write) {
            Ok(_) => Ok(()),
            Err(e) => Err(e),
        };
        proof {
            let mid = choose|mid: Collection| #[trigger]
                put_in(logged, mid, e) && frozen_when(
                    mid,
                    *self,
                    mid.state().mem_table.usage() >= mid.state().mem_table.limit(),
                );
            assert(wrote_then_froze(before, mid, *self, e));
            if mid.state().mem_table.usage() >= mid.state().mem_table.limit() {
                assert(self.state().frozen@.drop_first() =~= before.state().frozen@);
            }
            if before.consistent() {
                law_set(before, mid, *self, e);
                assert forall|user: Seq<char>| user != key@ implies #[trigger] self.value(user)
                    == before.value(user) by {
                    law_set_value(before, mid, *self, e, user);
                }
                law_set_value(before, mid, *self, e, key@);
            }
        }
        r
    }

    /// The value of `key`.
    pub fn get(&self, key: &str) -> (r: DbResult<Option<String>>)
        requires
            self.wf(),
        ensures
            tables::tells(r, self.state().finds(key@)),
            self.state().sound() ==> (r matches Ok(s) && tables::text_of(s) == self.value(key@)),
    {
        proof {
            if self.state.sound() {
                state::law_state_answers(self.state, key@);
            }
        }
        self.state.get(key)
    }

    /// Freezes the table in memory and starts a new log.
    pub fn force_freeze(&mut self) -> (r: DbResult<()>)
        requires
            old(self).wf(),
            old(self).next_log() < u64::MAX,
        ensures
            r is Ok,
            frozen_when(*old(self), *final(self), true),
    {
        let ghost before = *self;
        let new_wal = match self.wal.new_writer() {
            Ok(w) => w,
            Err(e) => {
                return Err(e);
            },
        };
        proof {
            text::law_decimal_round_trip(before.wal.next_id() as nat, u64::MAX as nat);
        }
        let id: u64 = match text::parse_u64(new_wal.id()) {
            Ok(id) => id,
            Err(e) => {
                return Err(DbError::from(e));
            },
        };
        let file = path::join(self.wal.dir_path(), self.state.wal.id());
        let bytes = self.state.wal.take_unwritten();
        let ghost head = (file@, bytes@);
        self.retired.push((file, bytes));
        let mut old_table = MemTable::new(id);
        std::mem::swap(&mut old_table, &mut self.state.mem_table);
        self.state.frozen.insert(0, old_table);
        self.state.wal = new_wal;
        proof {
            assert(self.waiting() =~= before.waiting().push(head));
            assert(self.state.frozen@ =~= seq![before.state.mem_table] + before.state.frozen@);
            assert forall|i: int| 0 <= i < self.state.frozen@.len() implies (
            #[trigger] self.state.frozen@[i]).wf() by {
                if i > 0 {
                    assert(self.state.frozen@[i] == before.state.frozen@[i - 1]);
                }
            }
        }
        Ok(())
    }

    /// Freezes the table in memory if it is full.
    pub fn try_freeze(&mut self) -> (r: DbResult<()>)
        requires
            old(self).wf(),
            old(self).next_log() < u64::MAX,
        ensures
            r is Ok,
            frozen_when(
                *old(self),
                *final(self),
                old(self).state().mem_table.usage() >= old(self).state().mem_table.limit(),
            ),
    {
        if !self.state.mem_table.is_full() {
            return Ok(());
        }
        self.force_freeze()
    }

    /// Freezes the table in memory if it holds anything.
    pub fn freeze_active(&mut self) -> (r: DbResult<()>)
        requires
            old(self).wf(),
            old(self).next_log() < u64::MAX,
        ensures
            r is Ok,
            frozen_when(
                *old(self),
                *final(self),
                old(self).state().mem_table.entries().len() > 0,
            ),
    {
        if !self.state.mem_table.is_empty() {
            return self.force_freeze();
        }
        Ok(())
    }

    /// Whether so many frozen tables wait for the flusher that writers have to
    /// wait.
    pub fn over_capacity(&self) -> (r: bool)
        ensures
            r == (self.state().frozen@.len() > MAX_FROZEN),
            r <==> self.state().frozen@.len() > 4,
    {
        self.state.frozen.len() > MAX_FROZEN
    }
}

/// The version that a write makes.
pub open spec fn write_of(key: Seq<char>, value: Seq<char>, seq: u64) -> Entry {
    (KeyView { user: key, seq }, ValueView::Put(value))
}

/// Whether `b` is `a` with `e` in its table in memory.
pub open spec fn put_in(a: Collection, b: Collection, e: Entry) -> bool {
    &&& b.wf()
    &&& b.log_dir() == a.log_dir()
    &&& b.next_log() == a.next_log()
    &&& b.next_seq() == a.next_seq()
    &&& b.waiting() == a.waiting()
    &&& b.stopping() == a.stopping()
    &&& b.state().frozen == a.state().frozen
    &&& b.state().storage == a.state().storage
    &&& b.state().wal == a.state().wal
    &&& logs::took(a.state().mem_table, b.state().mem_table, seq![e])
}

proof fn lemma_at_most_higher(ls: Seq<Versions>, a: u64, b: u64)
    requires
        a <= b,
    ensures
        layers::at_most(ls, a) ==> layers::at_most(ls, b),
{
}

/// What a write makes of the layers.
proof fn lemma_wrote_layers(a: Collection, mid: Collection, b: Collection, e: Entry)
    requires
        wrote_then_froze(a, mid, b, e),
    ensures
        mid.layers() == layers::wrote(a.layers(), seq![e]),
        b.layers() == mid.layers() || b.layers() == seq![Map::<KeyView, ValueView>::empty()]
            + mid.layers(),
        b.state().storage == a.state().storage,
{
    assert(mid.layers() =~= layers::wrote(a.layers(), seq![e]));
    if mid.state().mem_table.usage() >= mid.state().mem_table.limit() {
        lemma_froze(mid.state(), b.state(), mid.next_log());
    }
}

/// Freezing the table in memory puts an empty layer on top.
pub proof fn lemma_froze(a: State, b: State, id: u64)
    requires
        froze(a, b, id),
    ensures
        b.layers() == seq![Map::<KeyView, ValueView>::empty()] + a.layers(),
        b.logged(Seq::empty()),
{
    assert(tables::memory_of(b.frozen@) =~= seq![a.mem_table@] + tables::memory_of(a.frozen@));
    assert(b.layers() =~= seq![Map::<KeyView, ValueView>::empty()] + a.layers());
}

/// A write keeps a collection consistent.
pub proof fn law_set(a: Collection, mid: Collection, b: Collection, e: Entry)
    requires
        a.consistent(),
        wrote_then_froze(a, mid, b, e),
        e.0.seq == a.next_seq(),
    ensures
        b.consistent(),
{
    lemma_wrote_layers(a, mid, b, e);
    let top = (a.next_seq() - 1) as u64;
    layers::law_commit_keeps_order(a.layers(), seq![e], e.0.seq, top);
    layers::law_freeze_keeps_order(mid.layers(), e.0.seq);
}

/// After a write its key has the value that was written, and all other keys have
/// the values they had.
pub proof fn law_set_value(
    a: Collection,
    mid: Collection,
    b: Collection,
    e: Entry,
    user: Seq<char>,
)
    requires
        a.consistent(),
        wrote_then_froze(a, mid, b, e),
        e.0.seq == a.next_seq(),
    ensures
        user == e.0.user ==> b.value(user) == LookupView::of(e.1).answer(),
        user != e.0.user ==> b.value(user) == a.value(user),
{
    lemma_wrote_layers(a, mid, b, e);
    layers::law_freeze_keeps_answers(mid.layers(), user, u64::MAX);
    if user == e.0.user {
        assert forall|k: KeyView| #[trigger] a.layers()[0].contains_key(k) implies k.seq
            < e.0.seq by {
            assert(k.seq <= (a.next_seq() - 1) as u64);
        }
        assert(layers::one_commit(seq![e], e.0.seq));
        layers::law_commit_is_visible_above(a.layers(), seq![e], e.0.seq, 0, u64::MAX);
    } else {
        layers::law_commit_leaves_other_keys(a.layers(), seq![e], user, u64::MAX);
    }
}

impl Collection {
    /// Makes the table that is to replace the oldest frozen table: the newest
    /// version of each key. Nothing changes before the flush is completed.
    pub fn prepare_flush(&mut self) -> (r: DbResult<Option<Flush>>)
        requires
            old(self).wf(),
            old(self).state().storage.next_id() < u64::MAX,
        ensures
            old(self).state().frozen@.len() > 0 && versions::are_small(
                old(self).state().frozen@.last().entries(),
            ) ==> r is Ok,
            final(self).wf(),
            final(self).next_seq() == old(self).next_seq(),
            final(self).next_log() == old(self).next_log(),
            final(self).log_dir() == old(self).log_dir(),
            final(self).waiting() == old(self).waiting(),
            final(self).stopping() == old(self).stopping(),
            old(self).state().frozen@.len() == 0 ==> *final(self) == *old(self) && (r matches Ok(
                f,
            ) && f is None),
            old(self).state().frozen@.len() > 0 ==> {
                &&& unflushed(old(self).state(), final(self).state())
                &&& prepared(r, old(self).state())
            },
    {
        if self.state.frozen.len() == 0 {
            return Ok(None);
        }
        let last: usize = self.state.frozen.len() - 1;
        let log: u64 = self.state.frozen[last].id();
        match self.state.storage.prepare_l0(&self.state.frozen[last], u64::MAX) {
            Ok(table) => Ok(Some(Flush { log, table })),
            Err(e) => Err(e),
        }
    }

    /// Puts the table of a flush in the place of the table in memory that it was
    /// made from.
    pub fn complete_flush(&mut self, flush: Flush)
        requires
            old(self).wf(),
            flush.table matches Some(t) ==> t.wf(),
        ensures
            final(self).wf(),
            final(self).next_seq() == old(self).next_seq(),
            final(self).next_log() == old(self).next_log(),
            final(self).log_dir() == old(self).log_dir(),
            final(self).waiting() == old(self).waiting(),
            final(self).stopping() == old(self).stopping(),
            completed(old(self).state(), final(self).state(), flush),
    {
        match flush.table {
            Some(t) => {
                self.state.storage.install_l0(t);
            },
            None => {},
        }
        let n: usize = self.state.frozen.len();
        if n > 0 && self.state.frozen[n - 1].id() == flush.log {
            let _ = self.state.frozen.pop();
        }
    }

    /// Flushes the oldest frozen table: writes the newest version of each of its
    /// keys into a table of level 0, and drops it from memory. Returns whether
    /// there was a frozen table. Its log is no longer needed then.
    pub fn flush_oldest(&mut self) -> (r: DbResult<bool>)
        requires
            old(self).wf(),
            old(self).state().storage.next_id() < u64::MAX,
        ensures
            old(self).state().frozen@.len() > 0 && versions::are_small(
                old(self).state().frozen@.last().entries(),
            ) ==> r is Ok,
            final(self).wf(),
            final(self).next_seq() == old(self).next_seq(),
            final(self).next_log() == old(self).next_log(),
            final(self).log_dir() == old(self).log_dir(),
            final(self).waiting() == old(self).waiting(),
            final(self).stopping() == old(self).stopping(),
            match r {
                Ok(true) => exists|t: Option<SSTable>| #[trigger]
                    flushed_next(old(self).state(), final(self).state(), t),
                Ok(false) => old(self).state().frozen@.len() == 0 && *final(self) == *old(self),
                Err(e) => {
                    &&& e is InvalidInt
                    &&& old(self).state().frozen@.len() > 0
                    &&& disk::unwritable(flush_of(old(self).state()))
                    &&& unflushed(old(self).state(), final(self).state())
                },
            },
    {
        match self.prepare_flush() {
            Err(e) => Err(e),
            Ok(None) => Ok(false),
            Ok(Some(flush)) => {
                let ghost t = flush.table;
                self.complete_flush(flush);
                assert(flushed_next(old(self).state(), self.state(), t));
                Ok(true)
            },
        }
    }

    /// Whether there are numbers left for the tables that a flush of everything
    /// writes.
    pub fn has_flush_room(&self) -> (r: bool)
        ensures
            r == self.flush_room(),
            r <==> self.state().storage.next_id() + self.state().frozen@.len()
                < 0xFFFF_FFFF_FFFF_FFFE && self.next_log() < 0xFFFF_FFFF_FFFF_FFFF,
    {
        let n: usize = self.state.frozen.len();
        self.state.storage.has_room_for(n) && self.wal.has_room()
    }

    /// Whether there are numbers left for the tables that a flush of everything
    /// writes.
    pub open spec fn flush_room(&self) -> bool {
        &&& self.state().storage.next_id() + self.state().frozen@.len() < u64::MAX - 1
        &&& self.next_log() < u64::MAX
    }

    /// Moves all that is in memory to disk.
    pub fn flush(&mut self) -> (r: DbResult<()>)
        requires
            old(self).wf(),
            old(self).flush_room(),
        ensures
            r is Ok ==> final(self).state().frozen@.len() == 0,
            final(self).state().mem_table.entries().len() == 0,
            forall|user: Seq<char>|
                match old(self).value(user) {
                    Some(s) => s.len() > 0 ==> #[trigger] final(self).value(user) == Some(s),
                    None => final(self).value(user) is None,
                },
            versions::are_small(old(self).state().mem_table.entries()) && (forall|i: int|
                0 <= i < old(self).state().frozen@.len() ==> versions::are_small(
                    (#[trigger] old(self).state().frozen@[i]).entries(),
                )) ==> r is Ok,
            final(self).wf(),
            final(self).next_seq() == old(self).next_seq(),
            final(self).stopping() == old(self).stopping(),
            flushed_all(r, *old(self), *final(self)),
            old(self).consistent() ==> final(self).consistent(),
            forall|user: Seq<char>|
                layers::same_after_flush(
                    layers::read(old(self).layers(), user, u64::MAX),
                    #[trigger] layers::read(final(self).layers(), user, u64::MAX),
                ),
    {
        let r = self.flush_tables();
        proof {
            assert forall|user: Seq<char>|
                match old(self).value(user) {
                    Some(s) => s.len() > 0 ==> #[trigger] self.value(user) == Some(s),
                    None => self.value(user) is None,
                } by {
                layers::law_same_after_flush(
                    layers::read(old(self).layers(), user, u64::MAX),
                    layers::read(self.layers(), user, u64::MAX),
                );
            }
        }
        r
    }

    /// Freezes what is in memory, and flushes one table after the other.
    fn flush_tables(&mut self) -> (r: DbResult<()>)
        requires
            old(self).wf(),
            old(self).flush_room(),
        ensures
            versions::are_small(old(self).state().mem_table.entries()) && (forall|i: int|
                0 <= i < old(self).state().frozen@.len() ==> versions::are_small(
                    (#[trigger] old(self).state().frozen@[i]).entries(),
                )) ==> r is Ok,
            final(self).wf(),
            final(self).next_seq() == old(self).next_seq(),
            final(self).stopping() == old(self).stopping(),
            flushed_all(r, *old(self), *final(self)),
            old(self).consistent() ==> final(self).consistent(),
            forall|user: Seq<char>|
                layers::same_after_flush(
                    layers::read(old(self).layers(), user, u64::MAX),
                    #[trigger] layers::read(final(self).layers(), user, u64::MAX),
                ),
    {
        let ghost before = *self;
        match self.freeze_active() {
            Ok(_) => {},
            Err(e) => {
                return Err(e);
            },
        }
        proof {
            let when = before.state().mem_table.entries().len() > 0;
            if when {
                lemma_froze(before.state(), self.state(), before.next_log());
                if before.consistent() {
                    layers::law_freeze_keeps_order(
                        before.layers(),
                        (before.next_seq() - 1) as u64,
                    );
                }
                self.state.mem_table.lemma_entries();
                versions::lemma_map_of_keys(self.state.mem_table.entries());
                if self.state.mem_table.entries().len() > 0 {
                    let k = self.state.mem_table.entries()[0].0;
                    assert(versions::has_key(self.state.mem_table.entries(), k));
                    assert(self.state.mem_table@.contains_key(k));
                }
            }
            assert forall|user: Seq<char>|
                layers::same_after_flush(
                    layers::read(before.layers(), user, u64::MAX),
                    #[trigger] layers::read(self.layers(), user, u64::MAX),
                ) by {
                if when {
                    layers::law_freeze_keeps_answers(before.layers(), user, u64::MAX);
                }
            }
        }
        let ghost frozen = self.state().frozen@;
        assert(frozen.take(frozen.len() as int) =~= frozen);
        let ghost small = versions::are_small(before.state().mem_table.entries()) && (forall|i: int|
            0 <= i < before.state().frozen@.len() ==> versions::are_small(
                (#[trigger] before.state().frozen@[i]).entries(),
            ));
        proof {
            let more = before.state().mem_table.entries().len() > 0;
            if small {
                assert forall|i: int| 0 <= i < frozen.len() implies versions::are_small(
                    (#[trigger] frozen[i]).entries(),
                ) by {
                    if more && i > 0 {
                        assert(frozen[i] == before.state().frozen@[i - 1]);
                    } else if !more {
                        assert(frozen[i] == before.state().frozen@[i]);
                    }
                }
            }
        }
        loop
            invariant
                before == *old(self),
                self.wf(),
                self.next_seq() == before.next_seq(),
                self.stopping() == before.stopping(),
                logs_after_freeze(before, *self),
                frozen == (if before.state().mem_table.entries().len() > 0 {
                    seq![before.state().mem_table] + before.state().frozen@
                } else {
                    before.state().frozen@
                }),
                self.state().frozen@.len() <= frozen.len(),
                self.state().frozen@ == frozen.take(self.state().frozen@.len() as int),
                self.state().storage.dir() == before.state().storage.dir(),
                self.state().storage.next_id() == before.state().storage.next_id() + frozen.len()
                    - self.state().frozen@.len(),
                self.state().mem_table.entries().len() == 0,
                self.state().storage.next_id() + self.state().frozen@.len() < u64::MAX,
                before.consistent() ==> self.consistent(),
                small ==> forall|i: int|
                    0 <= i < frozen.len() ==> versions::are_small(
                        (#[trigger] frozen[i]).entries(),
                    ),
                small == (versions::are_small(before.state().mem_table.entries()) && (forall|
                    i: int,
                |
                    0 <= i < before.state().frozen@.len() ==> versions::are_small(
                        (#[trigger] before.state().frozen@[i]).entries(),
                    ))),
                forall|user: Seq<char>|
                    layers::same_after_flush(
                        layers::read(before.layers(), user, u64::MAX),
                        #[trigger] layers::read(self.layers(), user, u64::MAX),
                    ),
            ensures
                self.state().frozen@.len() == 0,
            decreases self.state().frozen@.len(),
        {
            let ghost here = *self;
            proof {
                let n = self.state().frozen@.len();
                if n > 0 {
                    assert(self.state().frozen@.last() == frozen[n - 1]);
                }
            }
            match self.flush_oldest() {
                Err(e) => {
                    return Err(e);
                },
                Ok(false) => {
                    break;
                },
                Ok(true) => {
                    proof {
                        let t = choose|t: Option<SSTable>| #[trigger]
                            flushed_next(here.state(), self.state(), t);
                        assert(self.state().frozen@ =~= frozen.take(
                            self.state().frozen@.len() as int,
                        ));
                        assert forall|user: Seq<char>|
                            layers::same_after_flush(
                                layers::read(before.layers(), user, u64::MAX),
                                #[trigger] layers::read(self.layers(), user, u64::MAX),
                            ) by {
                            law_flush(here.state(), self.state(), t, user);
                            assert(layers::same_after_flush(
                                layers::read(before.layers(), user, u64::MAX),
                                layers::read(here.layers(), user, u64::MAX),
                            ));
                        }
                        if before.consistent() {
                            law_flush_order(
                                here.state(),
                                self.state(),
                                t,
                                (here.next_seq() - 1) as u64,
                            );
                        }
                    }
                },
            }
        }
        Ok(())
    }

    /// Moves all that is in memory to disk and marks the store as being shut down.
    pub fn close(&mut self) -> (r: DbResult<()>)
        requires
            old(self).wf(),
            old(self).flush_room(),
        ensures
            r is Ok ==> final(self).state().frozen@.len() == 0,
            final(self).state().mem_table.entries().len() == 0,
            forall|user: Seq<char>|
                match old(self).value(user) {
                    Some(s) => s.len() > 0 ==> #[trigger] final(self).value(user) == Some(s),
                    None => final(self).value(user) is None,
                },
            versions::are_small(old(self).state().mem_table.entries()) && (forall|i: int|
                0 <= i < old(self).state().frozen@.len() ==> versions::are_small(
                    (#[trigger] old(self).state().frozen@[i]).entries(),
                )) ==> r is Ok,
            final(self).wf(),
            final(self).stopping(),
            final(self).next_seq() == old(self).next_seq(),
            flushed_all(r, *old(self), *final(self)),
            old(self).consistent() ==> final(self).consistent(),
            forall|user: Seq<char>|
                layers::same_after_flush(
                    layers::read(old(self).layers(), user, u64::MAX),
                    #[trigger] layers::read(final(self).layers(), user, u64::MAX),
                ),
    {
        let result = self.flush();
        let ghost done = *self;
        self.begin_shutdown();
        assert forall|user: Seq<char>| #[trigger] self.value(user) == done.value(user) by {}
        result
    }

    /// Whether the store is being shut down.
    pub fn is_shutdown(&self) -> (r: bool)
        ensures
            r == self.stopping(),
    {
        self.shutdown
    }

    /// Marks the store as being shut down.
    pub fn begin_shutdown(&mut self)
        requires
            old(self).wf(),
        ensures
            final(self).wf(),
            final(self).stopping(),
            final(self).state() == old(self).state(),
            final(self).next_seq() == old(self).next_seq(),
            final(self).next_log() == old(self).next_log(),
            final(self).log_dir() == old(self).log_dir(),
            final(self).waiting() == old(self).waiting(),
    {
        self.shutdown = true;
    }

    /// Whether there are numbers left for another write and another log.
    pub fn has_room(&self) -> (r: bool)
        ensures
            r == self.room(),
            r <==> self.next_seq() < 0xFFFF_FFFF_FFFF_FFFF && self.next_log()
                < 0xFFFF_FFFF_FFFF_FFFF,
    {
        self.seq < u64::MAX && self.wal.has_room()
    }

    /// Whether there is a number left for another table.
    pub fn has_table_room(&self) -> (r: bool)
        ensures
            r == (self.state().storage.next_id() < u64::MAX),
    {
        self.state.storage.has_room()
    }

    /// The file of the log with this number.
    pub fn log_file(&self, id: u64) -> (r: String)
        ensures
            r@ == path::joined(self.log_dir(), text::decimal_text(id as nat)),
    {
        self.wal.file(id)
    }

    /// Hands out what is to be written to the logs: for each log its file and the
    /// entries to append to it. The last one is the log that is written to now.
    pub fn take_writes(&mut self) -> (r: Vec<(String, Vec<u8>)>)
        requires
            old(self).wf(),
        ensures
            final(self).wf(),
            final(self).next_seq() == old(self).next_seq(),
            final(self).next_log() == old(self).next_log(),
            final(self).log_dir() == old(self).log_dir(),
            final(self).stopping() == old(self).stopping(),
            final(self).state().mem_table == old(self).state().mem_table,
            final(self).state().frozen == old(self).state().frozen,
            final(self).state().storage == old(self).state().storage,
            final(self).state().wal.name() == old(self).state().wal.name(),
            final(self).state().wal.log() == old(self).state().wal.log(),
            final(self).state().wal.unwritten() == Seq::<u8>::empty(),
            final(self).waiting() == Seq::<(Seq<char>, Seq<u8>)>::empty(),
            Seq::new(r@.len(), |i: int| (r@[i].0@, r@[i].1@)) == old(self).waiting().push(
                (
                    path::joined(old(self).log_dir(), old(self).state().wal.name()),
                    old(self).state().wal.unwritten(),
                ),
            ),
    {
        let ghost before = *self;
        let mut out: Vec<(String, Vec<u8>)> = Vec::new();
        std::mem::swap(&mut out, &mut self.retired);
        let file = path::join(self.wal.dir_path(), self.state.wal.id());
        let bytes = self.state.wal.take_unwritten();
        let ghost tail = (file@, bytes@);
        out.push((file, bytes));
        assert(self.waiting() =~= Seq::<(Seq<char>, Seq<u8>)>::empty());
        assert(Seq::new(out@.len(), |i: int| (out@[i].0@, out@[i].1@)) =~= before.waiting().push(
            tail,
        ));
        out
    }
}

/// Whether `r` is the flush of the oldest frozen table of `s`.
pub open spec fn prepared(r: DbResult<Option<Flush>>, s: State) -> bool {
    let ks = flush_of(s);
    let file = path::joined(s.storage.dir(), disk::table_name(0, s.storage.next_id()));
    match r {
        Ok(Some(f)) => {
            &&& f.log == s.frozen@.last().number()
            &&& disk::flushed_table(Ok(f.table), file, ks)
        },
        Ok(None) => false,
        Err(e) => disk::flushed_table(Err(e), file, ks),
    }
}

/// How the layers divide around the table that is flushed.
proof fn lemma_flushed(a: State, b: State, t: Option<SSTable>)
    requires
        a.wf(),
        flushed(a, b, t),
    ensures
        ({
            let newer = seq![a.mem_table@] + tables::memory_of(a.frozen@.drop_last());
            let es = a.frozen@.last().entries();
            let older = layers::contents(a.storage.order());
            &&& versions::sorted(es)
            &&& a.layers() == newer + (seq![versions::map_of(es)] + older)
            &&& b.layers() == newer + (match t {
                Some(t) => seq![layers::content(t)] + older,
                None => older,
            })
        }),
{
    let newer = seq![a.mem_table@] + tables::memory_of(a.frozen@.drop_last());
    let last = a.frozen@.last();
    let older = layers::contents(a.storage.order());
    assert(a.frozen@[a.frozen@.len() - 1].wf());
    last.lemma_entries();
    assert(a.layers() =~= newer + (seq![last@] + older));
    match t {
        Some(t) => {
            assert(layers::contents(b.storage.order()) =~= seq![layers::content(t)] + older);
        },
        None => {},
    }
    assert(b.layers() =~= newer + (match t {
        Some(t) => seq![layers::content(t)] + older,
        None => older,
    }));
}

/// A flush changes no value, but that an empty text comes back as a deletion mark.
pub proof fn law_flush(a: State, b: State, t: Option<SSTable>, user: Seq<char>)
    requires
        a.wf(),
        flushed(a, b, t),
    ensures
        layers::same_after_flush(
            layers::read(a.layers(), user, u64::MAX),
            layers::read(b.layers(), user, u64::MAX),
        ),
{
    lemma_flushed(a, b, t);
    versions::lemma_sorted_ascending(a.frozen@.last().entries());
    layers::law_flush_keeps_answers(
        seq![a.mem_table@] + tables::memory_of(a.frozen@.drop_last()),
        a.frozen@.last().entries(),
        layers::contents(a.storage.order()),
        u64::MAX,
        t,
        user,
        u64::MAX,
    );
}

/// A write and a freeze leave the oldest frozen table as it is.
pub proof fn law_oldest_table_stays(a: Collection, b: Collection, e: Entry, when: bool)
    requires
        a.state().frozen@.len() > 0,
        put_in(a, b, e) || frozen_when(a, b, when),
    ensures
        b.state().frozen@.len() > 0,
        b.state().frozen@.last() == a.state().frozen@.last(),
{
}

/// A flush in two steps is a flush: as long as the oldest frozen table is the one
/// that the new table was made of, finishing the flush changes no value, but that
/// an empty text comes back as a deletion mark.
pub proof fn law_flush_in_steps(
    a: Collection,
    m: Collection,
    b: Collection,
    flush: Flush,
    user: Seq<char>,
)
    requires
        m.wf(),
        a.state().frozen@.len() > 0,
        prepared(Ok(Some(flush)), a.state()),
        m.state().frozen@.len() > 0,
        m.state().frozen@.last() == a.state().frozen@.last(),
        completed(m.state(), b.state(), flush),
        b.next_seq() == m.next_seq(),
    ensures
        flushed(m.state(), b.state(), flush.table),
        layers::same_after_flush(
            layers::read(m.layers(), user, u64::MAX),
            layers::read(b.layers(), user, u64::MAX),
        ),
        m.consistent() ==> b.consistent(),
{
    m.lemma_wf();
    assert(flushed(m.state(), b.state(), flush.table));
    law_flush(m.state(), b.state(), flush.table, user);
    if m.consistent() {
        law_flush_order(m.state(), b.state(), flush.table, (m.next_seq() - 1) as u64);
    }
}

/// A flush keeps the layers in order, and the table that it adds is whole.
pub proof fn law_flush_order(a: State, b: State, t: Option<SSTable>, top: u64)
    requires
        a.wf(),
        flushed(a, b, t),
        a.sound(),
        layers::recent_first(a.layers()),
        layers::at_most(a.layers(), top),
    ensures
        b.sound(),
        layers::recent_first(b.layers()),
        layers::at_most(b.layers(), top),
{
    lemma_flushed(a, b, t);
    versions::lemma_sorted_ascending(a.frozen@.last().entries());
    layers::law_flush_keeps_order(
        seq![a.mem_table@] + tables::memory_of(a.frozen@.drop_last()),
        a.frozen@.last().entries(),
        layers::contents(a.storage.order()),
        u64::MAX,
        t,
        top,
    );
    let ts = b.storage.order();
    assert forall|i: int| 0 <= i < ts.len() implies layers::sound(#[trigger] ts[i]) by {
        match t {
            Some(t) => {
                if i > 0 {
                    assert(ts[i] == a.storage.order()[i - 1]);
                }
            },
            None => {},
        }
    }
}

/// Sequence numbers are never given out twice: in a collection that was just
/// opened no version in memory, and none in a table that was written whole,
/// reaches the number of the next write.
pub proof fn law_open_resumes_above(
    c: Collection,
    dir: Seq<char>,
    log_names: Seq<Seq<char>>,
    ls: Seq<(Seq<char>, Seq<u8>)>,
    files: Seq<(String, Vec<u8>)>,
)
    requires
        opened(c, dir, log_names, ls, files),
        c.state().sound(),
    ensures
        c.next_seq() > 0,
        layers::at_most(c.layers(), (c.next_seq() - 1) as u64),
{
    let s = c.state();
    let v = wal::restored(ls)->Ok_0;
    let top = (c.next_seq() - 1) as u64;
    wal::law_restored_sequences(ls);
    layers::law_tables_bound_sequences(s.storage.order());
    let all = c.layers();
    let n = 1 + s.frozen@.len();
    assert forall|i: int, k: KeyView|
        0 <= i < all.len() && #[trigger] all[i].contains_key(k) implies k.seq <= top by {
        if i == 0 {
            assert(all[0] == s.mem_table@);
        } else if i < n {
            assert(all[i] == tables::memory_of(s.frozen@)[i - 1]);
            assert(wal::restored_layers(v)[i - 1].contains_key(k));
        } else {
            assert(all[i] == layers::contents(s.storage.order())[i - n]);
        }
    }
}

/// A collection that is opened from the logs and tables of another one, of which no
/// log is cut off behind the length of a key, answers from the writes that are
/// whole. With a log that is cut off so it cannot be opened.
pub proof fn law_open_after_crash(
    c: Collection,
    dir: Seq<char>,
    log_names: Seq<Seq<char>>,
    ids: Seq<u64>,
    ws: Seq<Seq<Entry>>,
    cuts: Seq<int>,
    files: Seq<(String, Vec<u8>)>,
    user: Seq<char>,
)
    requires
        ids.len() == ws.len() == cuts.len(),
        forall|i: int| 0 <= i < ws.len() ==> crate::wal::all_fit(#[trigger] ws[i]),
        forall|i: int|
            0 <= i < ws.len() ==> 0 <= #[trigger] cuts[i] <= layout::payload(ws[i]).len(),
        opened(c, dir, log_names, wal::crashed_logs(ids, ws, cuts), files),
    ensures
        layers::same_after_flush(
            layers::read(
                layers::tables_of_writes(wal::whole_writes(ws, cuts)) + layers::contents(
                    c.state().storage.order(),
                ),
                user,
                u64::MAX,
            ),
            layers::read(c.layers(), user, u64::MAX),
        ),
        wal::cleanly_cut(ws, cuts),
{
    let s = c.state();
    let disk_layers = layers::contents(s.storage.order());
    wal::law_restore(ids, ws, cuts);
    let whole = wal::whole_writes(ws, cuts);
    layers::law_reopening_keeps_answers(
        layers::tables_of_writes(whole),
        whole,
        disk_layers,
        user,
        u64::MAX,
    );
    assert(c.layers() =~= seq![Map::<KeyView, ValueView>::empty()] + layers::tables_of_writes(
        layers::all_stored(whole),
    ) + disk_layers);
}

/// Whether the tables in memory hold these writes, and the log of the first one
/// too.
pub open spec fn logs_match(s: State, ws: Seq<Seq<Entry>>) -> bool {
    &&& ws.len() == 1 + s.frozen@.len()
    &&& s.logged(ws[0])
    &&& forall|i: int| 0 <= i < ws.len() ==> crate::wal::all_fit(#[trigger] ws[i])
    &&& layers::all_hold(s.memory(), ws)
}

/// A write is in the log of its table.
pub proof fn law_set_is_logged(a: Collection, b: Collection, e: Entry, ws: Seq<Seq<Entry>>)
    requires
        logs_match(a.state(), ws),
        encode::entry_fits(e),
        wrote(a, b, e),
    ensures
        logs_match(b.state(), ws.update(0, ws[0].push(e))),
{
    let (s, t, es) = (a.state(), b.state(), ws[0]);
    let (ns, all) = (es.push(e), ws.update(0, es.push(e)));
    assert(ns.drop_last() =~= es);
    assert forall|i: int| 0 <= i < ns.len() implies encode::entry_fits(#[trigger] ns[i]) by {
        if i < es.len() {
            assert(ns[i] == es[i]);
        }
    }
    assert(seq![e].drop_last() =~= Seq::<Entry>::empty());
    assert(logs::put_all(s.mem_table@, seq![e].drop_last()) == s.mem_table@);
    assert(t.logged(ns));
    assert forall|i: int| 0 <= i < all.len() implies crate::wal::all_fit(#[trigger] all[i]) by {
        if i > 0 {
            assert(all[i] == ws[i]);
        }
    }
    assert forall|i: int| 0 <= i < t.memory().len() implies layers::holds(
        #[trigger] t.memory()[i],
        all[i],
    ) by {
        if i > 0 {
            assert(t.memory()[i] == s.memory()[i]);
            assert(layers::holds(s.memory()[i], ws[i]));
        }
    }
}

/// Freezing starts an empty log.
pub proof fn law_freeze_is_logged(a: State, b: State, id: u64, ws: Seq<Seq<Entry>>)
    requires
        logs_match(a, ws),
        froze(a, b, id),
    ensures
        logs_match(b, seq![Seq::<Entry>::empty()] + ws),
{
    let ns = seq![Seq::<Entry>::empty()] + ws;
    lemma_froze(a, b, id);
    assert forall|i: int| 0 <= i < ns.len() implies crate::wal::all_fit(#[trigger] ns[i]) by {
        if i > 0 {
            assert(ns[i] == ws[i - 1]);
        }
    }
    assert(b.memory() =~= seq![b.mem_table@] + a.memory());
    assert forall|i: int| 0 <= i < b.memory().len() implies layers::holds(
        #[trigger] b.memory()[i],
        ns[i],
    ) by {
        if i > 0 {
            assert(b.memory()[i] == a.memory()[i - 1]);
            assert(layers::holds(a.memory()[i - 1], ws[i - 1]));
        }
    }
}

/// After a flush the log of the table that was flushed is not needed.
pub proof fn law_flush_retires_log(a: State, b: State, t: Option<SSTable>, ws: Seq<Seq<Entry>>)
    requires
        logs_match(a, ws),
        flushed(a, b, t),
    ensures
        logs_match(b, ws.drop_last()),
{
    let ns = ws.drop_last();
    assert forall|i: int| 0 <= i < ns.len() implies crate::wal::all_fit(#[trigger] ns[i]) by {
        assert(ns[i] == ws[i]);
    }
    assert forall|i: int| 0 <= i < b.memory().len() implies layers::holds(
        #[trigger] b.memory()[i],
        ns[i],
    ) by {
        assert(b.memory()[i] == a.memory()[i]);
        assert(layers::holds(a.memory()[i], ws[i]));
    }
}

/// A collection that is opened where there are no logs and no tables is consistent and
/// has no values.
pub proof fn law_open_empty(
    c: Collection,
    dir: Seq<char>,
    log_names: Seq<Seq<char>>,
    files: Seq<(String, Vec<u8>)>,
    user: Seq<char>,
)
    requires
        opened(c, dir, log_names, Seq::empty(), files),
        forall|i: int| 0 <= i < files.len() ==> disk::named_table((#[trigger] files[i]).0@) is None,
    ensures
        c.consistent(),
        c.value(user) is None,
{
    let s = c.state();
    disk::law_loaded_tables(s.storage, path::joined(dir, disk::TABLES_DIR@), files);
    let empty = Map::<KeyView, ValueView>::empty();
    assert(c.layers() =~= seq![empty]);
    layers::lemma_read_one(empty, user, u64::MAX);
    versions::lemma_lookup_absent(empty, user, u64::MAX);
}

/// A collection that is opened from the logs and the table files of a consistent one,
/// whatever part of the logs is left that can be read, is consistent.
pub proof fn law_crash_keeps_consistent(
    a: Collection,
    b: Collection,
    dir: Seq<char>,
    log_names: Seq<Seq<char>>,
    ids: Seq<u64>,
    ws: Seq<Seq<Entry>>,
    cuts: Seq<int>,
    files: Seq<(String, Vec<u8>)>,
)
    requires
        a.consistent(),
        logs_match(a.state(), ws),
        ids.len() == ws.len() == cuts.len(),
        forall|i: int|
            0 <= i < ws.len() ==> 0 <= #[trigger] cuts[i] <= layout::payload(ws[i]).len(),
        opened(b, dir, log_names, wal::crashed_logs(ids, ws, cuts), files),
        layers::same_files(a.state().storage.order(), b.state().storage.order()),
    ensures
        b.consistent(),
{
    let (s, t) = (a.state(), b.state());
    let ls = wal::crashed_logs(ids, ws, cuts);
    let disk_layers = layers::contents(s.storage.order());
    disk::law_loaded_tables(t.storage, path::joined(dir, disk::TABLES_DIR@), files);
    layers::law_same_files(s.storage.order(), t.storage.order());
    wal::law_restore(ids, ws, cuts);
    let ps = wal::whole_writes(ws, cuts);
    assert forall|i: int| 0 <= i < ps.len() implies (#[trigger] ps[i]).len() <= ws[i].len()
        && ps[i] == ws[i].take(ps[i].len() as int) by {
        assert(crate::wal::all_fit(ws[i]));
        assert(0 <= cuts[i] <= layout::payload(ws[i]).len());
        crate::wal::wal::law_torn_log(ws[i], cuts[i]);
    }
    layers::lemma_parts(ps, ws);
    layers::law_reopening_keeps_order(s.memory(), ws, ps, disk_layers);
    assert(b.layers() =~= seq![Map::<KeyView, ValueView>::empty()] + layers::tables_of_writes(
        layers::all_stored(ps),
    ) + disk_layers);
    law_open_resumes_above(b, dir, log_names, ls, files);
}

/// The lengths of the logs of writes.
pub open spec fn log_lengths(ws: Seq<Seq<Entry>>) -> Seq<int> {
    Seq::new(ws.len(), |i: int| layout::payload(ws[i]).len() as int)
}

/// A collection that is opened again has the values it had before: the writes of
/// its tables in memory come back from their logs, those on disk from the tables.
/// Only an empty text comes back as a deletion mark. Its tables in memory hold what
/// their logs hold, and opened from the same table files it is consistent if it was
/// before.
pub proof fn law_reopen(
    a: Collection,
    b: Collection,
    dir: Seq<char>,
    log_names: Seq<Seq<char>>,
    ids: Seq<u64>,
    ws: Seq<Seq<Entry>>,
    files: Seq<(String, Vec<u8>)>,
    user: Seq<char>,
)
    requires
        logs_match(a.state(), ws),
        ids.len() == ws.len(),
        opened(b, dir, log_names, wal::crashed_logs(ids, ws, log_lengths(ws)), files),
        layers::contents(b.state().storage.order()) == layers::contents(
            a.state().storage.order(),
        ),
    ensures
        layers::same_after_flush(
            layers::read(a.layers(), user, u64::MAX),
            layers::read(b.layers(), user, u64::MAX),
        ),
        logs_match(b.state(), seq![Seq::<Entry>::empty()] + ws),
        a.consistent() && layers::same_files(a.state().storage.order(), b.state().storage.order())
            ==> b.consistent(),
        match a.value(user) {
            Some(s) => s.len() > 0 ==> b.value(user) == Some(s),
            None => b.value(user) is None,
        },
{
    let s = a.state();
    let cuts = log_lengths(ws);
    if a.consistent() && layers::same_files(s.storage.order(), b.state().storage.order()) {
        law_crash_keeps_consistent(a, b, dir, log_names, ids, ws, cuts, files);
    }
    let disk_layers = layers::contents(s.storage.order());
    wal::law_restore(ids, ws, cuts);
    assert forall|i: int| 0 <= i < ws.len() implies #[trigger] wal::whole_writes(ws, cuts)[i]
        == ws[i] by {
        assert(crate::wal::all_fit(ws[i]));
        crate::wal::wal::law_whole_log(ws[i]);
    }
    assert(wal::cleanly_cut(ws, cuts)) by {
        assert forall|i: int| 0 <= i < ws.len() implies crate::wal::wal::torn_bytes(
            #[trigger] ws[i],
            cuts[i],
        ) < 2 by {
            assert(crate::wal::all_fit(ws[i]));
            crate::wal::wal::law_whole_log(ws[i]);
        }
    }
    assert(wal::whole_writes(ws, cuts) =~= ws);
    layers::law_reopening_keeps_answers(s.memory(), ws, disk_layers, user, u64::MAX);
    let again = layers::tables_of_writes(layers::all_stored(ws));
    assert(b.layers() =~= seq![Map::<KeyView, ValueView>::empty()] + again + disk_layers);
    layers::law_same_after_flush(
        layers::read(a.layers(), user, u64::MAX),
        layers::read(b.layers(), user, u64::MAX),
    );
    let (t, ns) = (b.state(), seq![Seq::<Entry>::empty()] + ws);
    assert forall|i: int| 0 <= i < ns.len() implies crate::wal::all_fit(#[trigger] ns[i]) by {
        if i > 0 {
            assert(ns[i] == ws[i - 1]);
        }
    }
    assert forall|i: int| 0 <= i < t.memory().len() implies layers::holds(
        #[trigger] t.memory()[i],
        ns[i],
    ) by {
        if i > 0 {
            assert(t.memory()[i] == tables::memory_of(t.frozen@)[i - 1]);
            assert(tables::memory_of(t.frozen@)[i - 1] == again[i - 1]);
        } else {
            assert(t.memory()[0] == t.mem_table@);
        }
    }
}

/// The value under a key is the text of its newest version: where no version of the key
/// is newer than the one in layer `i`, and no earlier layer has that version, its text
/// is the value, and there is none if it is a deletion mark. Without a version there is
/// no value.
pub proof fn law_value_is_newest(c: Collection, user: Seq<char>)
    requires
        c.consistent(),
    ensures
        forall|i: int, s: u64|
            0 <= i < c.layers().len() && #[trigger] c.layers()[i].contains_key(
                KeyView { user, seq: s },
            ) && (forall|j: int, x: u64|
                0 <= j < c.layers().len() && #[trigger] c.layers()[j].contains_key(
                    KeyView { user, seq: x },
                ) ==> x <= s) && (forall|j: int|
                0 <= j < i ==> !(#[trigger] c.layers()[j]).contains_key(KeyView { user, seq: s }))
                ==> c.value(user) == (match c.layers()[i][KeyView { user, seq: s }] {
                ValueView::Put(t) => Some(t),
                ValueView::Delete => None,
            }),
        (forall|j: int, x: u64|
            0 <= j < c.layers().len() ==> !#[trigger] c.layers()[j].contains_key(
                KeyView { user, seq: x },
            )) ==> c.value(user) is None,
{
    let ls = c.layers();
    assert forall|i: int, s: u64|
        0 <= i < ls.len() && #[trigger] ls[i].contains_key(KeyView { user, seq: s }) && (forall|
            j: int,
            x: u64,
        |
            0 <= j < ls.len() && #[trigger] ls[j].contains_key(KeyView { user, seq: x }) ==> x
                <= s) && (forall|j: int|
            0 <= j < i ==> !(#[trigger] ls[j]).contains_key(
                KeyView { user, seq: s },
            )) implies c.value(user) == (match ls[i][KeyView { user, seq: s }] {
        ValueView::Put(t) => Some(t),
        ValueView::Delete => None,
    }) by {
        layers::law_newest_version_answers(ls, user, u64::MAX, i, s);
    }
    if forall|j: int, x: u64|
        0 <= j < ls.len() ==> !#[trigger] ls[j].contains_key(KeyView { user, seq: x }) {
        layers::law_no_version_answers_nothing(ls, user, u64::MAX);
    }
}

/// A collection that is opened begins a log of its own: its number is above that of
/// every log in the directory, and the next table gets one above that of every table.
pub proof fn law_open_begins_a_new_log(
    c: Collection,
    dir: Seq<char>,
    log_names: Seq<Seq<char>>,
    ls: Seq<(Seq<char>, Seq<u8>)>,
    files: Seq<(String, Vec<u8>)>,
)
    requires
        opened(c, dir, log_names, ls, files),
    ensures
        forall|i: int|
            0 <= i < log_names.len() ==> (text::parsed_number(
                #[trigger] log_names[i],
                0xFFFF_FFFF_FFFF_FFFF,
            ) matches Some(n) ==> n < c.state().mem_table.number()),
        forall|i: int|
            0 <= i < files.len() ==> (disk::named_table((#[trigger] files[i]).0@) matches Some(t)
                ==> t.1 < c.state().storage.next_id()),
        c.state().mem_table.number() < c.next_log(),
{
    assert forall|i: int| 0 <= i < log_names.len() implies (text::parsed_number(
        #[trigger] log_names[i],
        0xFFFF_FFFF_FFFF_FFFF,
    ) matches Some(n) ==> n < c.state().mem_table.number()) by {
        if let Some(n) = text::parsed_number(log_names[i], 0xFFFF_FFFF_FFFF_FFFF) {
            logs::law_log_numbers(log_names, n as u64);
            assert(logs::parsed_ids(log_names).contains(n as u64));
        }
    }
    disk::law_load_order(c.state().storage, path::joined(dir, disk::TABLES_DIR@), files);
}

/// A flush writes of each key in the oldest frozen table its newest version, with its
/// value, and nothing else.
pub proof fn law_flush_writes_newest(s: State, k: KeyView)
    requires
        s.wf(),
        s.frozen@.len() > 0,
    ensures
        ({
            let (m, f) = (s.frozen@.last()@, versions::map_of(flush_of(s)));
            &&& f.contains_key(k) <==> m.contains_key(k) && forall|x: u64|
                x > k.seq ==> !#[trigger] m.contains_key(KeyView { user: k.user, seq: x })
            &&& f.contains_key(k) ==> f[k] == m[k]
        }),
        versions::sorted(flush_of(s)),
{
    let t = s.frozen@.last();
    assert(s.frozen@[s.frozen@.len() - 1].wf());
    t.lemma_entries();
    versions::lemma_sorted_ascending(t.entries());
    compaction::law_compaction_keeps_exactly(t.entries(), false, u64::MAX, k);
    compaction::law_compaction_sorted(t.entries(), false, u64::MAX);
}

} // verus!
