//! What a collection holds: the log, the tables in memory and the tables on disk.

use vstd::prelude::*;

use crate::common::error::{DbError, DbResult, Fault};
use crate::common::key::KeyView;
use crate::common::lookup::{Lookup, LookupView};
use crate::common::text;
use crate::common::value::ValueView;
use crate::common::versions::Entry;
use crate::memtable::{MemTable, MAX_SIZE};
use crate::sstable::layout;
use crate::storage::layers;
use crate::storage::layers::Versions;
use crate::storage::state;
use crate::storage::storage;
use crate::storage::storage::DiskStorage;
use crate::storage::wal as logs;
use crate::wal;
use crate::wal::wal::WalWriter;

verus! {

/// The log and the tables.
pub struct State {
    /// The log of the table that is written to.
    pub wal: WalWriter,
    /// The table that is written to.
    pub mem_table: MemTable,
    /// The tables in memory that are no longer written to, the newest first.
    pub frozen: Vec<MemTable>,
    /// The tables on disk.
    pub storage: DiskStorage,
}

impl State {
    /// The tables are in good order.
    pub open spec fn wf(&self) -> bool {
        &&& self.mem_table.wf()
        &&& forall|i: int| 0 <= i < self.frozen@.len() ==> (#[trigger] self.frozen@[i]).wf()
        &&& self.storage.wf()
    }

    /// The versions in memory, the newest layer first.
    pub open spec fn memory(&self) -> Seq<Versions> {
        seq![self.mem_table@] + state::memory_of(self.frozen@)
    }

    /// All versions, the newest layer first.
    pub open spec fn layers(&self) -> Seq<Versions> {
        self.memory() + layers::contents(self.storage.order())
    }

    /// Whether each table on disk was written whole.
    pub open spec fn sound(&self) -> bool {
        layers::all_sound(self.storage.order())
    }

    /// What a reader is told under `user`: what the first table that knows the key
    /// says, those in memory before those on disk.
    pub open spec fn finds(&self, user: Seq<char>) -> Result<Option<Seq<char>>, Fault> {
        match layers::read(self.memory(), user, u64::MAX) {
            LookupView::Absent => match storage::disk_get(self.storage.order(), user, u64::MAX) {
                Ok(l) => Ok(l.answer()),
                Err(f) => Err(f),
            },
            l => Ok(l.answer()),
        }
    }

    /// Whether the log of the table that is written to holds exactly these writes,
    /// and so does the table.
    pub open spec fn logged(&self, es: Seq<Entry>) -> bool {
        &&& wal::all_fit(es)
        &&& self.wal.log() == layout::payload(es)
        &&& self.mem_table@ == logs::put_all(Map::empty(), es)
    }

    /// The state with a new log, and with tables that were made again from older
    /// logs.
    pub fn new(wal: WalWriter, frozen: Vec<MemTable>, storage: DiskStorage) -> (r: DbResult<Self>)
        requires
            storage.wf(),
            forall|i: int| 0 <= i < frozen@.len() ==> (#[trigger] frozen@[i]).wf(),
        ensures
            match text::parsed_number(wal.name(), u64::MAX as nat) {
                Some(id) => r matches Ok(s) && {
                    &&& s.wf()
                    &&& s.wal == wal
                    &&& s.mem_table.number() == id
                    &&& s.mem_table@ == Map::<KeyView, ValueView>::empty()
                    &&& s.mem_table.usage() == 0
                    &&& s.mem_table.bytes() == 0
                    &&& s.mem_table.limit() == MAX_SIZE
                    &&& s.frozen@ == frozen@
                    &&& s.storage == storage
                },
                None => r matches Err(e) && e is InvalidValue,
            },
    {
        let id: u64 = match text::parse_u64(wal.id()) {
            Ok(id) => id,
            Err(e) => {
                return Err(DbError::from(e));
            },
        };
        Ok(State { wal, mem_table: MemTable::new(id), frozen, storage })
    }

    /// The newest value of `key`.
    pub fn get(&self, key: &str) -> (r: DbResult<Option<String>>)
        requires
            self.wf(),
        ensures
            state::tells(r, self.finds(key@)),
    {
        proof {
            layers::lemma_read_join(
                seq![self.mem_table@],
                state::memory_of(self.frozen@),
                key@,
                u64::MAX,
            );
            layers::lemma_read_one(self.mem_table@, key@, u64::MAX);
        }
        match self.mem_table.get(key) {
            Lookup::Found(value) => {
                return Ok(Some(value));
            },
            Lookup::Deleted => {
                return Ok(None);
            },
            Lookup::Absent => {},
        }
        let ghost all = state::memory_of(self.frozen@);
        let mut i: usize = 0;
        assert(all.skip(0) =~= all);
        while i < self.frozen.len()
            invariant
                self.wf(),
                i <= self.frozen@.len(),
                all == state::memory_of(self.frozen@),
                layers::read(self.memory(), key@, u64::MAX) == layers::read(
                    all.skip(i as int),
                    key@,
                    u64::MAX,
                ),
            decreases self.frozen@.len() - i,
        {
            let ghost here = all.skip(i as int);
            assert(here[0] == self.frozen@[i as int]@);
            assert(here.drop_first() =~= all.skip(i + 1));
            match self.frozen[i].get(key) {
                Lookup::Found(value) => {
                    return Ok(Some(value));
                },
                Lookup::Deleted => {
                    return Ok(None);
                },
                Lookup::Absent => {},
            }
            i += 1;
        }
        assert(layers::read(all.skip(i as int), key@, u64::MAX) is Absent);
        match self.storage.get(key) {
            Ok(Lookup::Found(value)) => Ok(Some(value)),
            Ok(_) => Ok(None),
            Err(e) => Err(e),
        }
    }
}

/// When the tables on disk were written whole, a reader is told what all layers
/// answer.
pub proof fn law_state_answers(s: State, user: Seq<char>)
    requires
        s.sound(),
    ensures
        s.finds(user) == Ok::<Option<Seq<char>>, Fault>(
            layers::read(s.layers(), user, u64::MAX).answer(),
        ),
{
    layers::lemma_read_join(s.memory(), layers::contents(s.storage.order()), user, u64::MAX);
    layers::law_disk_answers(s.storage.order(), user, u64::MAX);
}

/// A reader is told what the tables in memory say, and where they say nothing what the
/// tables on disk say: a fault there is reported.
pub proof fn law_reader_is_told(s: State, user: Seq<char>)
    ensures
        match layers::read(s.memory(), user, u64::MAX) {
            LookupView::Found(t) => s.finds(user) == Ok::<Option<Seq<char>>, Fault>(Some(t)),
            LookupView::Deleted => s.finds(user) == Ok::<Option<Seq<char>>, Fault>(None),
            LookupView::Absent => match storage::disk_get(s.storage.order(), user, u64::MAX) {
                Ok(LookupView::Found(t)) => s.finds(user) == Ok::<Option<Seq<char>>, Fault>(
                    Some(t),
                ),
                Ok(_) => s.finds(user) == Ok::<Option<Seq<char>>, Fault>(None),
                Err(f) => s.finds(user) == Err::<Option<Seq<char>>, Fault>(f),
            },
        },
{
}

} // verus!
