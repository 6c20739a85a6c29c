//! Transactions: reads at one point of the history, and writes that are kept back
//! until they are committed together.

use vstd::prelude::*;

use crate::common::error::DbResult;
use crate::common::lookup::LookupView;
use crate::common::sorted;
use crate::common::sorted::SortedMap;
use crate::common::value::{Value, ValueView};
use crate::storage;
use crate::storage::pins;
use crate::storage::state;
use crate::storage::Storage;
use crate::transaction::oracle::Oracle;

pub mod oracle;
pub mod snapshot;

verus! {

/// A transaction that is under way.
pub struct Transaction {
    read_ts: u64,
    since: u64,
    buffer: SortedMap<Value>,
}

impl Transaction {
    /// The sequence number at which the transaction reads.
    pub closed spec fn ts(&self) -> u64 {
        self.read_ts
    }

    /// How many tables had been flushed when the transaction began.
    pub closed spec fn start(&self) -> u64 {
        self.since
    }

    /// The writes that are kept back, in the order of their keys.
    pub closed spec fn pairs(&self) -> Seq<(Seq<char>, Value)> {
        self.buffer.pairs()
    }

    /// The writes that are kept back.
    pub closed spec fn writes(&self) -> Map<Seq<char>, ValueView> {
        self.buffer@.map_values(|v: Value| v@)
    }

    /// No key is written twice.
    pub closed spec fn wf(&self) -> bool {
        self.buffer.wf()
    }

    /// The writes stand in the order of their keys, each key once.
    pub proof fn lemma_pairs(&self)
        requires
            self.wf(),
        ensures
            sorted::keys_ascend(self.pairs()),
            self.writes() == sorted::map_of_pairs(self.pairs()).map_values(|v: Value| v@),
    {
    }

    /// Begins a transaction that reads what is visible in the store as it is now,
    /// and registers it as a reader.
    pub fn new(oracle: &mut Oracle, storage: &mut Storage) -> (r: Self)
        requires
            old(oracle).wf(),
            old(oracle).reader_room(),
            old(storage).wf(),
        ensures
            final(oracle).wf(),
            final(storage).wf(),
            storage::alike(*old(storage), *final(storage)),
            pins::pinned(old(storage).pins(), final(storage).pins()),
            r.start() == old(storage).pins().flushes(),
            r.wf(),
            r.ts() == old(oracle).visible(),
            r.pairs() == Seq::<(Seq<char>, Value)>::empty(),
            r.writes() == Map::<Seq<char>, ValueView>::empty(),
            final(oracle).readers() == oracle::with(old(oracle).readers(), r.ts()),
            final(oracle).next_seq() == old(oracle).next_seq(),
            final(oracle).next_tx() == old(oracle).next_tx(),
            oracle::same_numbers(*old(oracle), *final(oracle)),
    {
        let read_ts: u64 = oracle.begin();
        let since: u64 = storage.pin();
        let tx = Transaction { read_ts, since, buffer: SortedMap::new() };
        assert(tx.writes() =~= Map::<Seq<char>, ValueView>::empty());
        tx
    }

    /// The sequence number at which the transaction reads.
    pub fn read_ts(&self) -> (r: u64)
        ensures
            r == self.ts(),
    {
        self.read_ts
    }

    /// How many tables had been flushed when the transaction began.
    pub fn since(&self) -> (r: u64)
        ensures
            r == self.start(),
    {
        self.since
    }

    /// Takes the writes out of the transaction, which stays a reader.
    pub fn into_writes(self) -> (r: SortedMap<Value>)
        requires
            self.wf(),
        ensures
            r.wf(),
            r.pairs() == self.pairs(),
    {
        self.buffer
    }

    /// Writes a value.
    pub fn set(&mut self, key: &str, value: &str)
        requires
            old(self).wf(),
        ensures
            final(self).wf(),
            final(self).ts() == old(self).ts(),
            final(self).start() == old(self).start(),
            final(self).writes() == old(self).writes().insert(key@, ValueView::Put(value@)),
    {
        self.buffer.insert(key.to_owned(), Value::set(value));
        assert(self.writes() =~= old(self).writes().insert(key@, ValueView::Put(value@)));
    }

    /// Deletes a key.
    pub fn delete(&mut self, key: &str)
        requires
            old(self).wf(),
        ensures
            final(self).wf(),
            final(self).ts() == old(self).ts(),
            final(self).start() == old(self).start(),
            final(self).writes() == old(self).writes().insert(key@, ValueView::Delete),
    {
        self.buffer.insert(key.to_owned(), Value::Delete);
        assert(self.writes() =~= old(self).writes().insert(key@, ValueView::Delete));
    }

    /// The value of `key`: what the transaction wrote itself, or else what was
    /// visible when it began.
    pub fn get(&self, storage: &Storage, key: &str) -> (r: DbResult<Option<String>>)
        requires
            self.wf(),
            storage.wf(),
        ensures
            self.writes().contains_key(key@) ==> (r matches Ok(s) && state::text_of(s)
                == LookupView::of(self.writes()[key@]).answer()),
            self.writes().contains_key(key@) ==> match self.writes()[key@] {
                ValueView::Put(t) => r matches Ok(Some(s)) && s@ == t,
                ValueView::Delete => r matches Ok(None),
            },
            !self.writes().contains_key(key@) ==> state::tells(
                r,
                storage.finds_since(key@, self.ts(), self.start()),
            ),
    {
        match self.buffer.get(key) {
            Some(Value::Put(value)) => {
                return Ok(Some(value.clone()));
            },
            Some(Value::Delete) => {
                return Ok(None);
            },
            None => {},
        }
        storage.get_since(key, self.read_ts, self.since)
    }

    /// Commits the writes, all at one sequence number. Fails, and writes nothing,
    /// when another commit wrote one of the keys after this transaction began. Fails,
    /// and leaves only the record that begins it in the log, when the log refuses one
    /// of the writes. In every case the transaction is over.
    pub fn commit(self, oracle: &mut Oracle, storage: &mut Storage) -> (r: DbResult<()>)
        requires
            self.wf(),
            old(oracle).wf(),
            old(storage).wf(),
            old(oracle).next_seq() < u64::MAX,
            old(oracle).next_tx() < u64::MAX,
            old(storage).next_log() < u64::MAX,
        ensures
            final(oracle).wf(),
            final(storage).wf(),
            final(oracle).readers() == oracle::without(old(oracle).readers(), self.ts()),
            final(storage).log_dir() == old(storage).log_dir(),
            final(storage).stopping() == old(storage).stopping(),
            pins::unpinned(old(storage).pins(), final(storage).pins(), self.start()),
            self.pairs().len() == 0 ==> {
                &&& r is Ok
                &&& storage::alike(*old(storage), *final(storage))
                &&& oracle::same_numbers(*old(oracle), *final(oracle))
                &&& final(oracle).next_seq() == old(oracle).next_seq()
                &&& final(oracle).next_tx() == old(oracle).next_tx()
            },
            self.pairs().len() > 0 ==> {
                &&& final(oracle).next_tx() == old(oracle).next_tx() + 1
                &&& oracle::attempted(
                    oracle::failure(r),
                    (*old(oracle), *old(storage)),
                    (*final(oracle), *final(storage)),
                    old(oracle).next_tx(),
                    Some(self.ts()),
                    self.pairs(),
                )
            },
    {
        let read_ts: u64 = self.read_ts;
        storage.unpin(self.since);
        if self.buffer.is_empty() {
            oracle.end(read_ts);
            return Ok(());
        }
        let tx_id: u64 = oracle.next_tx_id();
        let ghost before = *storage;
        let r = oracle.commit(tx_id, storage, Some(read_ts), self.buffer);
        proof {
            let es = oracle::writes(self.pairs(), old(oracle).next_seq());
            if r is Ok {
                let mid = choose|mid: Storage| #[trigger]
                    oracle::wrote_then_froze(before, mid, *storage, tx_id, es);
                assert(oracle::wrote_then_froze(*old(storage), mid, *storage, tx_id, es));
            }
        }
        oracle.end(read_ts);
        match r {
            Ok(_) => Ok(()),
            Err(e) => Err(e),
        }
    }

    /// Gives the transaction up: nothing is written, and it is a reader no longer.
    pub fn rollback(self, oracle: &mut Oracle, storage: &mut Storage)
        requires
            old(oracle).wf(),
            old(storage).wf(),
        ensures
            final(oracle).wf(),
            final(storage).wf(),
            storage::alike(*old(storage), *final(storage)),
            pins::unpinned(old(storage).pins(), final(storage).pins(), self.start()),
            final(oracle).readers() == oracle::without(old(oracle).readers(), self.ts()),
            final(oracle).next_seq() == old(oracle).next_seq(),
            final(oracle).next_tx() == old(oracle).next_tx(),
            oracle::same_numbers(*old(oracle), *final(oracle)),
    {
        storage.unpin(self.since);
        oracle.end(self.read_ts);
    }
}

} // verus!
