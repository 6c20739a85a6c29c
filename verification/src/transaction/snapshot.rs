//! Read-only views of the database.

use vstd::prelude::*;

use crate::common::error::DbResult;
use crate::storage;
use crate::storage::pins;
use crate::storage::state;
use crate::storage::Storage;
use crate::transaction::oracle;
use crate::transaction::oracle::Oracle;

verus! {

/// A consistent view of the database as of its creation.
///
/// While it is registered as a reader, the tables that were in memory when it was
/// taken stay readable for it.
pub struct Snapshot {
    read_ts: u64,
    since: u64,
}

impl Snapshot {
    /// The sequence number at which this snapshot reads.
    pub closed spec fn ts(&self) -> u64 {
        self.read_ts
    }

    /// How many tables had been flushed when the snapshot was taken.
    pub closed spec fn start(&self) -> u64 {
        self.since
    }

    /// Takes a snapshot of what is visible in the store as it is now, and registers
    /// it as a reader.
    pub fn new(oracle: &mut Oracle, storage: &mut Storage) -> (r: Self)
        requires
            old(oracle).wf(),
            old(oracle).reader_room(),
            old(storage).wf(),
        ensures
            final(oracle).wf(),
            final(storage).wf(),
            storage::alike(*old(storage), *final(storage)),
            pins::pinned(old(storage).pins(), final(storage).pins()),
            r.start() == old(storage).pins().flushes(),
            r.ts() == old(oracle).visible(),
            final(oracle).readers() == oracle::with(old(oracle).readers(), r.ts()),
            final(oracle).next_seq() == old(oracle).next_seq(),
            final(oracle).next_tx() == old(oracle).next_tx(),
            oracle::same_numbers(*old(oracle), *final(oracle)),
    {
        let read_ts: u64 = oracle.begin();
        let since: u64 = storage.pin();
        Snapshot { read_ts, since }
    }

    /// The sequence number at which this snapshot reads.
    pub fn read_ts(&self) -> (r: u64)
        ensures
            r == self.ts(),
    {
        self.read_ts
    }

    /// How many tables had been flushed when the snapshot was taken.
    pub fn since(&self) -> (r: u64)
        ensures
            r == self.start(),
    {
        self.since
    }

    /// The value of `key` as of this snapshot.
    pub fn get(&self, storage: &Storage, key: &str) -> (r: DbResult<Option<String>>)
        requires
            storage.wf(),
        ensures
            state::tells(r, storage.finds_since(key@, self.ts(), self.start())),
    {
        storage.get_since(key, self.read_ts, self.since)
    }

    /// Gives the snapshot up: it is a reader no longer.
    pub fn release(self, oracle: &mut Oracle, storage: &mut Storage)
        requires
            old(oracle).wf(),
            old(storage).wf(),
        ensures
            final(oracle).wf(),
            final(storage).wf(),
            storage::alike(*old(storage), *final(storage)),
            pins::unpinned(old(storage).pins(), final(storage).pins(), self.start()),
            final(oracle).readers() == oracle::without(old(oracle).readers(), self.ts()),
            final(oracle).next_seq() == old(oracle).next_seq(),
            final(oracle).next_tx() == old(oracle).next_tx(),
            oracle::same_numbers(*old(oracle), *final(oracle)),
    {
        storage.unpin(self.since);
        oracle.end(self.read_ts);
    }
}

} // verus!
