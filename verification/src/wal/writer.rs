//! Writing the log.

use vstd::prelude::*;
use vstd::utf8::*;

use crate::common::error::DbResult;
use crate::common::key::Key;
use crate::common::path;
use crate::common::value::{Value, ValueView};
use crate::common::versions::Entry;
use crate::sstable::encode;
use crate::sstable::encode::{encode, put_u16, put_u64, short_len};
use crate::sstable::layout;
use crate::sstable::scan::table as scan_table;
use crate::wal;
use crate::wal::{wal_id, CmdView, WalCmd, BATCH_CMD, OP_CMD, TX_BEGIN_CMD, TX_COMMIT_CMD};

verus! {

/// The end of a log. Records are appended in memory and handed out to be
/// written to the file.
pub struct WalWriter {
    id: String,
    pending: Vec<u8>,
    log: Ghost<Seq<u8>>,
}

impl WalWriter {
    /// The name of the log.
    pub closed spec fn name(&self) -> Seq<char> {
        self.id@
    }

    /// All records that have been appended.
    pub closed spec fn log(&self) -> Seq<u8> {
        self.log@
    }

    /// The records that have not been handed out yet.
    pub closed spec fn unwritten(&self) -> Seq<u8> {
        self.pending@
    }

    /// The end of the log whose file is at `path`.
    pub fn open(path: &str) -> (r: DbResult<Self>)
        ensures
            r is Ok <==> path::file_name_of(path@) is Some,
            r matches Ok(w) ==> {
                &&& w.log() == Seq::<u8>::empty()
                &&& w.unwritten() == Seq::<u8>::empty()
                &&& path::file_name_of(path@) == Some(w.name())
            },
            r matches Err(e) ==> e.is_state("cannot get wal filename"@),
    {
        match wal_id(path) {
            Ok(id) => {
                let w = Self { id, pending: Vec::new(), log: Ghost(Seq::empty()) };
                assert(w.unwritten() =~= Seq::<u8>::empty());
                Ok(w)
            },
            Err(e) => Err(e),
        }
    }

    /// Appends the record of a command. What cannot be written is refused, and
    /// nothing of it is appended.
    pub fn append(&mut self, op: &WalCmd) -> (r: DbResult<()>)
        ensures
            appended(r, *old(self), *final(self), op@),
            r is Ok ==> final(self).unwritten() == old(self).unwritten() + op@.bytes()
                && final(self).log() == old(self).log() + op@.bytes(),
    {
        match op {
            WalCmd::TxBegin(tx_id) => {
                self.append_tx(TX_BEGIN_CMD, *tx_id);
                Ok(())
            },
            WalCmd::TxCommit(tx_id) => {
                self.append_tx(TX_COMMIT_CMD, *tx_id);
                Ok(())
            },
            WalCmd::Op(tx_id, key, value) => self.append_kv(*tx_id, key, value),
            WalCmd::Batch(tx_id, batch) => self.append_batch(*tx_id, batch),
        }
    }

    fn append_tx(&mut self, cmd: u8, tx_id: u64)
        ensures
            final(self).name() == old(self).name(),
            final(self).log() == old(self).log() + (seq![cmd] + encode::be(tx_id as nat, 8)),
            final(self).unwritten() == old(self).unwritten() + (seq![cmd] + encode::be(
                tx_id as nat,
                8,
            )),
    {
        self.pending.push(cmd);
        put_u64(&mut self.pending, tx_id);
        proof {
            self.log@ = self.log@ + (seq![cmd] + encode::be(tx_id as nat, 8));
        }
        assert(self.pending@ =~= old(self).pending@ + (seq![cmd] + encode::be(tx_id as nat, 8)));
    }

    /// Appends one write of a transaction.
    pub fn append_kv(&mut self, tx_id: u64, key: &Key, value: &Value) -> (r: DbResult<()>)
        ensures
            appended(r, *old(self), *final(self), CmdView::Op(tx_id, (key@, value@))),
    {
        let ghost c = CmdView::Op(tx_id, (key@, value@));
        let start: usize = self.pending.len();
        self.pending.push(OP_CMD);
        put_u64(&mut self.pending, tx_id);
        match encode(&mut self.pending, key, value) {
            Ok(_) => {
                proof {
                    self.log@ = self.log@ + c.bytes();
                }
                assert(self.pending@ =~= old(self).pending@ + c.bytes());
                Ok(())
            },
            Err(e) => {
                self.pending.truncate(start);
                assert(self.pending@ =~= old(self).pending@);
                Err(e)
            },
        }
    }

    /// Appends writes of a transaction as one record.
    pub fn append_batch(&mut self, tx_id: u64, batch: &Vec<(Key, Value)>) -> (r: DbResult<()>)
        ensures
            appended(
                r,
                *old(self),
                *final(self),
                CmdView::Batch(tx_id, scan_table::pairs(batch@)),
            ),
    {
        let ghost es = scan_table::pairs(batch@);
        let ghost c = CmdView::Batch(tx_id, es);
        let start: usize = self.pending.len();
        let len: u16 = match short_len(batch.len()) {
            Ok(len) => len,
            Err(e) => {
                return Err(e);
            },
        };
        self.pending.push(BATCH_CMD);
        put_u16(&mut self.pending, len);
        put_u64(&mut self.pending, tx_id);
        let ghost head = seq![BATCH_CMD] + encode::be(es.len(), 2) + encode::be(tx_id as nat, 8);
        assert(es.take(0) =~= Seq::<Entry>::empty());
        assert(self.pending@ =~= old(self).pending@ + head + layout::payload(es.take(0)));
        let mut i: usize = 0;
        while i < batch.len()
            invariant
                i <= batch@.len(),
                es == scan_table::pairs(batch@),
                c == CmdView::Batch(tx_id, es),
                start == old(self).pending@.len(),
                self.id == old(self).id,
                self.log == old(self).log,
                self.pending@ == old(self).pending@ + head + layout::payload(es.take(i as int)),
                forall|j: int| 0 <= j < i ==> encode::entry_fits(#[trigger] es[j]),
            decreases batch@.len() - i,
        {
            let (k, v) = &batch[i];
            assert(es[i as int] == (k@, v@));
            match encode(&mut self.pending, k, v) {
                Ok(_) => {},
                Err(e) => {
                    self.pending.truncate(start);
                    assert(self.pending@ =~= old(self).pending@);
                    return Err(e);
                },
            }
            assert(es.take(i + 1).drop_last() =~= es.take(i as int));
            i += 1;
            assert(self.pending@ =~= old(self).pending@ + head + layout::payload(
                es.take(i as int),
            ));
        }
        assert(es.take(i as int) =~= es);
        proof {
            self.log@ = self.log@ + c.bytes();
        }
        assert(self.pending@ =~= old(self).pending@ + c.bytes());
        Ok(())
    }

    /// Appends a whole transaction: its beginning, its writes as one record and
    /// its commit. Writes that cannot be written are refused, and only the beginning
    /// is appended.
    pub fn append_commit(&mut self, tx_id: u64, batch: &Vec<(Key, Value)>) -> (r: DbResult<()>)
        ensures
            final(self).name() == old(self).name(),
            r is Ok <==> CmdView::Batch(tx_id, scan_table::pairs(batch@)).fits(),
            r is Ok <==> batch@.len() <= 65535 && (forall|i: int|
                0 <= i < batch@.len() ==> encode_utf8((#[trigger] batch@[i]).0.0@).len() <= 65535
                    && (batch@[i].1@ matches ValueView::Put(s) ==> encode_utf8(s).len() <= 65535)),
            r is Ok ==> {
                let bytes = commit_bytes(tx_id, scan_table::pairs(batch@));
                &&& final(self).log() == old(self).log() + bytes
                &&& final(self).unwritten() == old(self).unwritten() + bytes
            },
            r matches Err(e) ==> e is InvalidInt && begun(*old(self), *final(self), tx_id),
    {
        proof {
            let es = scan_table::pairs(batch@);
            wal::law_command_fits(CmdView::Batch(tx_id, es));
            assert forall|i: int| 0 <= i < es.len() implies #[trigger] es[i] == (
                batch@[i].0@,
                batch@[i].1@,
            ) by {}
            if CmdView::Batch(tx_id, es).fits() {
                assert forall|i: int| 0 <= i < batch@.len() implies encode_utf8(
                    (#[trigger] batch@[i]).0.0@,
                ).len() <= 65535 && (batch@[i].1@ matches ValueView::Put(s) ==> encode_utf8(s).len()
                    <= 65535) by {
                    assert(es[i] == (batch@[i].0@, batch@[i].1@));
                }
            }
            if batch@.len() <= 65535 && (forall|i: int|
                0 <= i < batch@.len() ==> encode_utf8((#[trigger] batch@[i]).0.0@).len() <= 65535
                    && (batch@[i].1@ matches ValueView::Put(s) ==> encode_utf8(s).len()
                    <= 65535)) {
                assert forall|i: int| 0 <= i < es.len() implies encode_utf8(
                    (#[trigger] es[i]).0.user,
                ).len() <= 65535 && (es[i].1 matches ValueView::Put(s) ==> encode_utf8(s).len()
                    <= 65535) by {
                    assert(encode_utf8(batch@[i].0.0@).len() <= 65535);
                }
            }
        }
        self.append_tx(TX_BEGIN_CMD, tx_id);
        match self.append_batch(tx_id, batch) {
            Ok(_) => {},
            Err(e) => {
                return Err(e);
            },
        }
        self.append_tx(TX_COMMIT_CMD, tx_id);
        proof {
            let bytes = commit_bytes(tx_id, scan_table::pairs(batch@));
            assert(self.pending@ =~= old(self).pending@ + bytes);
            assert(self.log@ =~= old(self).log@ + bytes);
        }
        Ok(())
    }

    /// Hands out the records that are to be written to the file.
    pub fn take_unwritten(&mut self) -> (r: Vec<u8>)
        ensures
            r@ == old(self).unwritten(),
            final(self).unwritten() == Seq::<u8>::empty(),
            final(self).log() == old(self).log(),
            final(self).name() == old(self).name(),
    {
        let mut out: Vec<u8> = Vec::new();
        std::mem::swap(&mut out, &mut self.pending);
        assert(self.pending@ =~= Seq::<u8>::empty());
        out
    }

    /// The name of the log.
    pub fn id(&self) -> (r: &str)
        ensures
            r@ == self.name(),
    {
        self.id.as_str()
    }
}

/// The records of a whole transaction.
pub open spec fn commit_bytes(tx_id: u64, es: Seq<Entry>) -> Seq<u8> {
    CmdView::TxBegin(tx_id).bytes() + CmdView::Batch(tx_id, es).bytes() + CmdView::TxCommit(
        tx_id,
    ).bytes()
}

/// Whether `now` is `before` with the beginning of a transaction.
pub open spec fn begun(before: WalWriter, now: WalWriter, tx_id: u64) -> bool {
    &&& now.name() == before.name()
    &&& now.log() == before.log() + CmdView::TxBegin(tx_id).bytes()
    &&& now.unwritten() == before.unwritten() + CmdView::TxBegin(tx_id).bytes()
}

/// Whether `r` reports that the command `c` was appended, or refused because it
/// is too long.
pub open spec fn appended(r: DbResult<()>, before: WalWriter, now: WalWriter, c: CmdView) -> bool {
    &&& now.name() == before.name()
    &&& r is Ok <==> c.fits()
    &&& r is Ok ==> now.log() == before.log() + c.bytes() && now.unwritten() == before.unwritten()
        + c.bytes()
    &&& r matches Err(e) ==> e is InvalidInt && now.log() == before.log() && now.unwritten()
        == before.unwritten()
}

/// A commit is logged as three records: the beginning of the transaction, its writes,
/// and its commit.
pub proof fn law_commit_layout(tx_id: u64, es: Seq<Entry>)
    ensures
        commit_bytes(tx_id, es) == seq![1u8] + encode::be(tx_id as nat, 8) + seq![4u8] + encode::be(
            es.len(),
            2,
        ) + encode::be(tx_id as nat, 8) + layout::payload(es) + seq![2u8] + encode::be(
            tx_id as nat,
            8,
        ),
{
    assert(commit_bytes(tx_id, es) =~= seq![1u8] + encode::be(tx_id as nat, 8) + seq![4u8]
        + encode::be(es.len(), 2) + encode::be(tx_id as nat, 8) + layout::payload(es) + seq![2u8]
        + encode::be(tx_id as nat, 8));
}

} // verus!
