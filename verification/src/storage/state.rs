//! What the storage holds: the log, the tables in memory and the tables on disk.

use vstd::prelude::*;

use crate::common::error::{DbError, DbResult, Fault};
use crate::common::key::KeyView;
use crate::common::lookup::{Lookup, LookupView};
use crate::common::text;
use crate::common::value::ValueView;
use crate::memtable::{MemTable, MAX_SIZE};
use crate::storage::layers;
use crate::storage::layers::Versions;
use crate::storage::storage;
use crate::storage::storage::DiskStorage;
use crate::storage::wal;
use crate::wal::writer;
use crate::wal::writer::WalWriter;
use crate::wal::{CmdView, WalCmd};

verus! {

/// The log and the tables.
pub struct State {
    /// The log of the table that is written to.
    pub wal: WalWriter,
    /// The table that is written to.
    pub mem_table: MemTable,
    /// The tables in memory that are no longer written to, the newest first.
    pub frozen: Vec<MemTable>,
    /// The tables on disk.
    pub storage: DiskStorage,
}

/// The versions in each of these tables.
pub open spec fn memory_of(ts: Seq<MemTable>) -> Seq<Versions> {
    Seq::new(ts.len(), |i: int| ts[i]@)
}

/// The text that is handed to a reader.
pub open spec fn text_of(s: Option<String>) -> Option<Seq<char>> {
    match s {
        Some(s) => Some(s@),
        None => None,
    }
}

/// Whether `r` tells a reader the outcome `o`.
pub open spec fn tells(r: DbResult<Option<String>>, o: Result<Option<Seq<char>>, Fault>) -> bool {
    match r {
        Ok(s) => o == Ok::<Option<Seq<char>>, Fault>(text_of(s)),
        Err(e) => o matches Err(f) && e.reports(f),
    }
}

impl State {
    /// The tables are in good order.
    pub open spec fn wf(&self) -> bool {
        &&& self.mem_table.wf()
        &&& forall|i: int| 0 <= i < self.frozen@.len() ==> (#[trigger] self.frozen@[i]).wf()
        &&& self.storage.wf()
    }

    /// The versions in memory, the newest layer first.
    pub open spec fn memory(&self) -> Seq<Versions> {
        seq![self.mem_table@] + memory_of(self.frozen@)
    }

    /// All versions, the newest layer first.
    pub open spec fn layers(&self) -> Seq<Versions> {
        self.memory() + layers::contents(self.storage.order())
    }

    /// Whether each table on disk was written whole.
    pub open spec fn sound(&self) -> bool {
        layers::all_sound(self.storage.order())
    }

    /// What a reader at `snap` is told under `user`: what the first table that
    /// knows the key says, those in memory before those on disk.
    pub open spec fn finds(&self, user: Seq<char>, snap: u64) -> Result<Option<Seq<char>>, Fault> {
        match layers::read(self.memory(), user, snap) {
            LookupView::Absent => match storage::disk_get(self.storage.order(), user, snap) {
                Ok(l) => Ok(l.answer()),
                Err(f) => Err(f),
            },
            l => Ok(l.answer()),
        }
    }

    /// Whether the log of the table that is written to holds exactly these
    /// committed batches, and the table their writes.
    pub open spec fn logged(&self, bs: Seq<wal::Batch>) -> bool {
        &&& wal::batches_fit(bs)
        &&& self.wal.log() == crate::wal::log_bytes(wal::batch_cmds(bs))
        &&& self.mem_table@ == wal::put_all(Map::empty(), wal::batch_entries(bs))
    }

    /// The state with a new log, and with tables that were made again from older
    /// logs.
    pub fn new(wal: WalWriter, frozen: Vec<MemTable>, storage: DiskStorage) -> (r: DbResult<Self>)
        requires
            storage.wf(),
            forall|i: int| 0 <= i < frozen@.len() ==> (#[trigger] frozen@[i]).wf(),
        ensures
            match text::parsed_number(wal.name(), u64::MAX as nat) {
                Some(id) => r matches Ok(s) && {
                    &&& s.wf()
                    &&& s.wal == wal
                    &&& s.mem_table.number() == id
                    &&& s.mem_table@ == Map::<KeyView, ValueView>::empty()
                    &&& s.mem_table.usage() == 0
                    &&& s.mem_table.bytes() == 0
                    &&& s.mem_table.limit() == MAX_SIZE
                    &&& s.frozen@ == frozen@
                    &&& s.storage == storage
                },
                None => r matches Err(e) && e is InvalidValue,
            },
    {
        let id: u64 = match text::parse_u64(wal.id()) {
            Ok(id) => id,
            Err(e) => {
                return Err(DbError::from(e));
            },
        };
        Ok(State { wal, mem_table: MemTable::new(id), frozen, storage })
    }

    /// Logs the beginning of a transaction.
    pub fn begin(&mut self, tx_id: u64) -> (r: DbResult<()>)
        ensures
            r is Ok,
            writer::appended(r, old(self).wal, final(self).wal, CmdView::TxBegin(tx_id)),
            final(self).mem_table == old(self).mem_table,
            final(self).frozen == old(self).frozen,
            final(self).storage == old(self).storage,
    {
        self.wal.append(&WalCmd::TxBegin(tx_id))
    }

    /// Logs the commit of a transaction.
    pub fn commit(&mut self, tx_id: u64) -> (r: DbResult<()>)
        ensures
            r is Ok,
            writer::appended(r, old(self).wal, final(self).wal, CmdView::TxCommit(tx_id)),
            final(self).mem_table == old(self).mem_table,
            final(self).frozen == old(self).frozen,
            final(self).storage == old(self).storage,
    {
        self.wal.append(&WalCmd::TxCommit(tx_id))
    }

    /// The newest version of `key` in memory with a sequence number of at most
    /// `seq`.
    pub fn get_memory(&self, key: &str, seq: u64) -> (r: Lookup)
        requires
            self.wf(),
        ensures
            r@ == layers::read(self.memory(), key@, seq),
    {
        proof {
            layers::lemma_read_join(
                seq![self.mem_table@],
                memory_of(self.frozen@),
                key@,
                seq,
            );
            layers::lemma_read_one(self.mem_table@, key@, seq);
        }
        match self.mem_table.get_seq(key, seq) {
            Lookup::Absent => {},
            found => {
                return found;
            },
        }
        let ghost all = memory_of(self.frozen@);
        let mut i: usize = 0;
        assert(all.skip(0) =~= all);
        while i < self.frozen.len()
            invariant
                self.wf(),
                i <= self.frozen@.len(),
                all == memory_of(self.frozen@),
                layers::read(self.memory(), key@, seq) == layers::read(
                    all.skip(i as int),
                    key@,
                    seq,
                ),
            decreases self.frozen@.len() - i,
        {
            let ghost here = all.skip(i as int);
            assert(here[0] == self.frozen@[i as int]@);
            assert(here.drop_first() =~= all.skip(i + 1));
            match self.frozen[i].get_seq(key, seq) {
                Lookup::Absent => {},
                found => {
                    return found;
                },
            }
            i += 1;
        }
        Lookup::Absent
    }

    /// The value of `key` for a reader at `seq`: its newest version with a
    /// sequence number of at most `seq`.
    pub fn get_snap(&self, key: &str, seq: u64) -> (r: DbResult<Option<String>>)
        requires
            self.wf(),
        ensures
            tells(r, self.finds(key@, seq)),
            self.sound() ==> (r matches Ok(s) && text_of(s) == layers::read(
                self.layers(),
                key@,
                seq,
            ).answer()),
    {
        proof {
            if self.sound() {
                law_state_answers(*self, key@, seq);
            }
        }
        match self.get_memory(key, seq) {
            Lookup::Found(value) => {
                return Ok(Some(value));
            },
            Lookup::Deleted => {
                return Ok(None);
            },
            Lookup::Absent => {},
        }
        match self.storage.get_snap(key, seq) {
            Ok(Lookup::Found(value)) => Ok(Some(value)),
            Ok(_) => Ok(None),
            Err(e) => Err(e),
        }
    }
}

/// When the tables on disk were written whole, a reader is told what all layers
/// answer.
pub proof fn law_state_answers(s: State, user: Seq<char>, snap: u64)
    requires
        s.sound(),
    ensures
        s.finds(user, snap) == Ok::<Option<Seq<char>>, Fault>(
            layers::read(s.layers(), user, snap).answer(),
        ),
{
    layers::lemma_read_join(s.memory(), layers::contents(s.storage.order()), user, snap);
    layers::law_disk_answers(s.storage.order(), user, snap);
}

/// A reader is told what the tables in memory say, and where they say nothing what the
/// tables on disk say: a fault there is reported.
pub proof fn law_reader_is_told(s: State, user: Seq<char>, snap: u64)
    ensures
        match layers::read(s.memory(), user, snap) {
            LookupView::Found(t) => s.finds(user, snap) == Ok::<Option<Seq<char>>, Fault>(Some(t)),
            LookupView::Deleted => s.finds(user, snap) == Ok::<Option<Seq<char>>, Fault>(None),
            LookupView::Absent => match storage::disk_get(s.storage.order(), user, snap) {
                Ok(LookupView::Found(t)) => s.finds(user, snap) == Ok::<Option<Seq<char>>, Fault>(
                    Some(t),
                ),
                Ok(_) => s.finds(user, snap) == Ok::<Option<Seq<char>>, Fault>(None),
                Err(f) => s.finds(user, snap) == Err::<Option<Seq<char>>, Fault>(f),
            },
        },
{
}

} // verus!
