//! Reading the log.

use vstd::prelude::*;
use vstd::string::*;

use crate::common::error::{DbError, DbResult};
use crate::common::key::Key;
use crate::common::path;
use crate::common::text;
use crate::common::value::Value;
use crate::common::versions::Entry;
use crate::sstable::encode;
use crate::sstable::encode::{get_u16, get_u64, read_key, read_value};
use crate::sstable::scan::table as scan_table;
use crate::wal;
use crate::wal::{
    wal_id, CmdView, Record, WalCmd, BATCH_CMD, OP_CMD, TX_BEGIN_CMD, TX_COMMIT_CMD,
};

verus! {

/// A place in a log.
pub struct WalReader {
    id: String,
    data: Vec<u8>,
    pos: usize,
}

/// The message for a byte that is no command.
pub open spec fn unknown_message(b: u8) -> Seq<char> {
    "unexpected WAL command: "@ + text::decimal_text(b as nat)
}

impl WalReader {
    /// The log.
    pub closed spec fn log(&self) -> Seq<u8> {
        self.data@
    }

    /// Where the reader stands.
    pub closed spec fn at(&self) -> int {
        self.pos as int
    }

    /// The name of the log.
    pub closed spec fn name(&self) -> Seq<char> {
        self.id@
    }

    /// The reader stands within the log.
    pub closed spec fn wf(&self) -> bool {
        self.pos <= self.data@.len()
    }

    /// Starts to read the log `data`, whose file is at `path`.
    pub fn open(path: &str, data: Vec<u8>) -> (r: DbResult<Self>)
        ensures
            r is Ok <==> path::file_name_of(path@) is Some,
            r matches Ok(w) ==> {
                &&& w.wf()
                &&& w.log() == data@
                &&& w.at() == 0
                &&& path::file_name_of(path@) == Some(w.name())
            },
            r matches Err(e) ==> e.is_state("cannot get wal filename"@),
    {
        match wal_id(path) {
            Ok(id) => Ok(Self { id, data, pos: 0 }),
            Err(e) => Err(e),
        }
    }

    /// The next command. A record that has been cut off ends the log.
    pub fn next(&mut self) -> (r: DbResult<Option<WalCmd>>)
        requires
            old(self).wf(),
        ensures
            final(self).wf(),
            final(self).log() == old(self).log(),
            final(self).name() == old(self).name(),
            match wal::record_at(old(self).log(), old(self).at()) {
                Record::End => r matches Ok(None) && final(self).at() == old(self).at(),
                Record::Unknown(b) => (r matches Err(e) && e.is_state(unknown_message(b)))
                    && final(self).at() == old(self).at() + 1,
                Record::Cmd(c, end) => (r matches Ok(Some(cmd)) && cmd@ == c) && final(self).at()
                    == end,
            },
    {
        let data = self.data.as_slice();
        let at: usize = self.pos;
        if at >= data.len() {
            return Ok(None);
        }
        let left: usize = data.len() - at;
        let cmd: u8 = data[at];
        if cmd == TX_BEGIN_CMD || cmd == TX_COMMIT_CMD {
            if left < 9 {
                return Ok(None);
            }
            let tx_id: u64 = get_u64(data, at + 1);
            self.pos = at + 9;
            if cmd == TX_BEGIN_CMD {
                Ok(Some(WalCmd::TxBegin(tx_id)))
            } else {
                Ok(Some(WalCmd::TxCommit(tx_id)))
            }
        } else if cmd == OP_CMD {
            if left < 9 {
                return Ok(None);
            }
            let tx_id: u64 = get_u64(data, at + 1);
            match read_key_value(data, at + 9) {
                None => Ok(None),
                Some((key, value, end)) => {
                    self.pos = end;
                    Ok(Some(WalCmd::Op(tx_id, key, value)))
                },
            }
        } else if cmd == BATCH_CMD {
            if left < 11 {
                return Ok(None);
            }
            let len: u16 = get_u16(data, at + 1);
            let tx_id: u64 = get_u64(data, at + 3);
            match read_batch(data, at + 11, len) {
                None => Ok(None),
                Some((batch, end)) => {
                    self.pos = end;
                    Ok(Some(WalCmd::Batch(tx_id, batch)))
                },
            }
        } else {
            self.pos = at + 1;
            let mut msg = "unexpected WAL command: ".to_owned();
            let shown = text::decimal(cmd as u64);
            msg.append(shown.as_str());
            Err(DbError::InvalidState(msg))
        }
    }

    /// The name of the log.
    pub fn id(&self) -> (r: &str)
        ensures
            r@ == self.name(),
    {
        self.id.as_str()
    }
}

/// Reads an entry, unless it has been cut off.
pub(crate) fn read_key_value(data: &[u8], at: usize) -> (r: Option<(Key, Value, usize)>)
    requires
        at <= data@.len(),
    ensures
        r matches Some((k, v, end)) ==> encode::entry_at(data@, at as int) == Some(
            ((k@, v@), end as int),
        ) && end <= data@.len(),
        r is None ==> encode::entry_at(data@, at as int) is None,
{
    match read_key(data, at) {
        Err(_) => None,
        Ok((key, mid)) => match read_value(data, mid) {
            Err(_) => None,
            Ok((value, end)) => Some((key, value, end)),
        },
    }
}

/// Without the first entries there are none behind them.
proof fn lemma_entries_short(data: Seq<u8>, at: int, m: nat, n: nat)
    requires
        m <= n,
        wal::entries_at(data, at, m) is None,
    ensures
        wal::entries_at(data, at, n) is None,
    decreases n,
{
    if m < n {
        lemma_entries_short(data, at, m, (n - 1) as nat);
    }
}

/// Reads `len` entries, unless they have been cut off.
fn read_batch(data: &[u8], at: usize, len: u16) -> (r: Option<(Vec<(Key, Value)>, usize)>)
    requires
        at <= data@.len(),
    ensures
        r matches Some((v, end)) ==> wal::entries_at(data@, at as int, len as nat) == Some(
            (scan_table::pairs(v@), end as int),
        ) && end <= data@.len(),
        r is None ==> wal::entries_at(data@, at as int, len as nat) is None,
{
    let mut batch: Vec<(Key, Value)> = Vec::new();
    let mut pos: usize = at;
    let mut i: u16 = 0;
    assert(scan_table::pairs(batch@) =~= Seq::<Entry>::empty());
    while i < len
        invariant
            i <= len,
            pos <= data@.len(),
            wal::entries_at(data@, at as int, i as nat) == Some(
                (scan_table::pairs(batch@), pos as int),
            ),
        decreases len - i,
    {
        let ghost done = scan_table::pairs(batch@);
        match read_key_value(data, pos) {
            None => {
                proof {
                    lemma_entries_short(data@, at as int, (i + 1) as nat, len as nat);
                }
                return None;
            },
            Some((key, value, end)) => {
                let ghost e = (key@, value@);
                batch.push((key, value));
                pos = end;
                i += 1;
                assert(scan_table::pairs(batch@) =~= done.push(e));
            },
        }
    }
    Some((batch, pos))
}

} // verus!
