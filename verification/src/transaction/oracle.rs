//! Sequence numbers: which one a commit gets, which ones are visible, and which
//! commits conflict.

use std::collections::BTreeMap;

use vstd::prelude::*;
use vstd::utf8::*;

use crate::common::error::{DbError, DbResult};
use crate::common::key::{Key, KeyView};
use crate::common::lookup::LookupView;
use crate::common::path;
use crate::common::sorted;
use crate::common::sorted::SortedMap;
use crate::common::text;
use crate::common::value::{Value, ValueView};
use crate::common::versions::Entry;
use crate::sstable::encode;
use crate::sstable::scan::table as scan_table;
use crate::storage;
use crate::storage::layers;
use crate::storage::Storage;
use crate::wal::writer;
use crate::wal::CmdView;

verus! {

/// Gives out sequence numbers and transaction numbers, and knows the readers.
pub struct Oracle {
    next_seq: u64,
    visible: u64,
    tx_id: u64,
    recent: SortedMap<u64>,
    active: BTreeMap<u64, u64>,
    last: Ghost<Map<Seq<char>, u64>>,
}

/// The readers with one more that reads at `ts`.
pub open spec fn with(readers: Map<u64, u64>, ts: u64) -> Map<u64, u64> {
    readers.insert(
        ts,
        if readers.contains_key(ts) {
            (readers[ts] + 1) as u64
        } else {
            1
        },
    )
}

/// The readers without one that reads at `ts`.
pub open spec fn without(readers: Map<u64, u64>, ts: u64) -> Map<u64, u64> {
    if !readers.contains_key(ts) {
        readers
    } else if readers[ts] <= 1 {
        readers.remove(ts)
    } else {
        readers.insert(ts, (readers[ts] - 1) as u64)
    }
}

/// Whether `ts` is where the first reader reads, or `visible` when there is none.
pub open spec fn is_first(readers: Map<u64, u64>, visible: u64, ts: u64) -> bool {
    if readers.dom().len() == 0 {
        ts == visible
    } else {
        readers.contains_key(ts) && forall|t: u64| #[trigger] readers.contains_key(t) ==> ts <= t
    }
}

/// Where the first reader reads, or `visible` when there is none.
pub open spec fn first_reader(readers: Map<u64, u64>, visible: u64) -> u64 {
    choose|ts: u64| is_first(readers, visible, ts)
}

/// A finite set of numbers that is not empty has a lowest one.
proof fn lemma_lowest(s: Set<u64>) -> (r: u64)
    requires
        s.finite(),
        s.len() > 0,
    ensures
        s.contains(r),
        forall|t: u64| #[trigger] s.contains(t) ==> r <= t,
    decreases s.len(),
{
    let a = s.choose();
    let rest = s.remove(a);
    if rest.len() == 0 {
        assert forall|t: u64| #[trigger] s.contains(t) implies a <= t by {
            if t != a {
                assert(rest.contains(t));
            }
        }
        a
    } else {
        let b = lemma_lowest(rest);
        let r = if a <= b { a } else { b };
        assert forall|t: u64| #[trigger] s.contains(t) implies r <= t by {
            if t != a {
                assert(rest.contains(t));
            }
        }
        r
    }
}

/// There is one place where the first reader reads.
pub proof fn lemma_first_reader(readers: Map<u64, u64>, visible: u64)
    requires
        readers.dom().finite(),
    ensures
        is_first(readers, visible, first_reader(readers, visible)),
        forall|ts: u64| #[trigger]
            is_first(readers, visible, ts) ==> ts == first_reader(readers, visible),
{
    if readers.dom().len() == 0 {
        assert(is_first(readers, visible, visible));
    } else {
        let ts = lemma_lowest(readers.dom());
        assert(is_first(readers, visible, ts));
    }
}

/// The commits of keys once the keys of pairs have been committed at `ts`.
pub open spec fn stamped<V>(
    m: Map<Seq<char>, u64>,
    ps: Seq<(Seq<char>, V)>,
    ts: u64,
) -> Map<Seq<char>, u64>
    decreases ps.len(),
{
    if ps.len() == 0 {
        m
    } else {
        stamped(m, ps.drop_last(), ts).insert(ps.last().0, ts)
    }
}

/// The commits above `line`.
pub open spec fn above(m: Map<Seq<char>, u64>, line: u64) -> Map<Seq<char>, u64> {
    Map::new(|k: Seq<char>| m.contains_key(k) && m[k] > line, |k: Seq<char>| m[k])
}

/// Whether one of the keys of pairs was committed after `read_ts`.
pub open spec fn conflicts<V>(
    m: Map<Seq<char>, u64>,
    ps: Seq<(Seq<char>, V)>,
    read_ts: Option<u64>,
) -> bool {
    read_ts matches Some(ts) && exists|i: int|
        0 <= i < ps.len() && m.contains_key((#[trigger] ps[i]).0) && m[ps[i].0] > ts
}

/// The versions that a commit at `ts` writes.
pub open spec fn writes(ps: Seq<(Seq<char>, Value)>, ts: u64) -> Seq<Entry> {
    Seq::new(ps.len(), |i: int| (KeyView { user: ps[i].0, seq: ts }, ps[i].1@))
}

/// The writes of a buffer are one commit.
pub proof fn lemma_writes(ps: Seq<(Seq<char>, Value)>, ts: u64)
    requires
        sorted::keys_ascend(ps),
    ensures
        layers::one_commit(writes(ps, ts), ts),
{
    broadcast use text::lemma_text_irreflexive;

    let es = writes(ps, ts);
    assert forall|i: int, j: int| 0 <= i < j < es.len() implies (#[trigger] es[i]).0.user != (
    #[trigger] es[j]).0.user by {
        assert(text::text_lt(ps[i].0, ps[j].0));
    }
}

/// Which keys have been committed once those of pairs have been committed at
/// `ts`.
pub proof fn lemma_stamped<V>(m: Map<Seq<char>, u64>, ps: Seq<(Seq<char>, V)>, ts: u64, k: Seq<char>)
    ensures
        (exists|i: int| 0 <= i < ps.len() && (#[trigger] ps[i]).0 == k) ==> stamped(
            m,
            ps,
            ts,
        ).contains_key(k) && stamped(m, ps, ts)[k] == ts,
        !(exists|i: int| 0 <= i < ps.len() && (#[trigger] ps[i]).0 == k) ==> (stamped(
            m,
            ps,
            ts,
        ).contains_key(k) <==> m.contains_key(k)) && (m.contains_key(k) ==> stamped(m, ps, ts)[k]
            == m[k]),
    decreases ps.len(),
{
    if ps.len() > 0 {
        let prev = ps.drop_last();
        lemma_stamped(m, prev, ts, k);
        if exists|i: int| 0 <= i < prev.len() && (#[trigger] prev[i]).0 == k {
            let i = choose|i: int| 0 <= i < prev.len() && (#[trigger] prev[i]).0 == k;
            assert(ps[i].0 == k);
        }
        if exists|i: int| 0 <= i < ps.len() && (#[trigger] ps[i]).0 == k {
            let i = choose|i: int| 0 <= i < ps.len() && (#[trigger] ps[i]).0 == k;
            if i < prev.len() {
                assert(prev[i].0 == k);
            }
        }
        if ps.last().0 == k {
            assert(ps[ps.len() - 1].0 == k);
        }
    }
}

impl Oracle {
    /// The sequence number of the next commit.
    pub closed spec fn next_seq(&self) -> u64 {
        self.next_seq
    }

    /// The highest sequence number whose writes are visible.
    pub closed spec fn visible(&self) -> u64 {
        self.visible
    }

    /// The number of the next transaction.
    pub closed spec fn next_tx(&self) -> u64 {
        self.tx_id
    }

    /// The sequence numbers at which the readers read, and how many read there.
    pub closed spec fn readers(&self) -> Map<u64, u64> {
        self.active@
    }

    /// The last commits of the keys that are remembered for conflicts.
    pub closed spec fn remembered(&self) -> Map<Seq<char>, u64> {
        self.recent@
    }

    /// The last commits of all keys.
    pub closed spec fn commits(&self) -> Map<Seq<char>, u64> {
        self.last@
    }

    /// The sequence number below which no reader is, and none will be.
    pub open spec fn line(&self) -> u64 {
        first_reader(self.readers(), self.visible())
    }

    /// Whether one more reader can be counted.
    pub open spec fn reader_room(&self) -> bool {
        self.readers().contains_key(self.visible()) ==> self.readers()[self.visible()] < u64::MAX
    }

    /// What is visible has been given out; the readers read what is visible, and
    /// are counted; what is not remembered of the commits was visible to all
    /// readers from the start.
    pub closed spec fn wf(&self) -> bool {
        &&& self.visible < self.next_seq
        &&& self.recent.wf()
        &&& self.active@.dom().finite()
        &&& forall|t: u64| #[trigger]
            self.active@.contains_key(t) ==> t <= self.visible && self.active@[t] > 0
        &&& forall|k: Seq<char>| #[trigger]
            self.last@.contains_key(k) ==> {
                &&& self.last@[k] <= self.visible
                &&& self.recent@.contains_key(k) || self.last@[k] <= self.line()
            }
        &&& forall|k: Seq<char>| #[trigger]
            self.recent@.contains_key(k) ==> self.last@.contains_key(k) && self.last@[k]
                == self.recent@[k]
    }

    /// What is visible has been given out, and readers read what is visible.
    pub proof fn lemma_bounds(&self)
        requires
            self.wf(),
        ensures
            self.visible() < self.next_seq(),
            self.line() <= self.visible(),
            forall|t: u64| #[trigger]
                self.readers().contains_key(t) ==> self.line() <= t <= self.visible()
                    && self.readers()[t] > 0,
            self.readers().dom().finite(),
            is_first(self.readers(), self.visible(), self.line()),
    {
        lemma_first_reader(self.readers(), self.visible());
        if self.readers().dom().len() == 0 {
            assert forall|t: u64| !#[trigger] self.readers().contains_key(t) by {
                if self.readers().dom().contains(t) {
                    assert(self.readers().dom().remove(t).len() < self.readers().dom().len());
                }
            }
        }
    }

    /// An oracle above `max_seq`, whose next transaction has the number `tx_id`.
    pub fn new(max_seq: u64, tx_id: u64) -> (r: Self)
        requires
            max_seq < u64::MAX,
        ensures
            r.wf(),
            r.next_seq() == max_seq + 1,
            r.visible() == max_seq,
            r.next_tx() == tx_id,
            r.readers() == Map::<u64, u64>::empty(),
            r.remembered() == Map::<Seq<char>, u64>::empty(),
            r.commits() == Map::<Seq<char>, u64>::empty(),
    {
        Oracle {
            next_seq: max_seq + 1,
            visible: max_seq,
            tx_id,
            recent: SortedMap::new(),
            active: BTreeMap::new(),
            last: Ghost(Map::empty()),
        }
    }

    /// Whether there are sequence numbers and transaction numbers left.
    pub fn has_room(&self) -> (r: bool)
        ensures
            r == (self.next_seq() < u64::MAX && self.next_tx() < u64::MAX),
    {
        self.next_seq < u64::MAX && self.tx_id < u64::MAX
    }

    /// Gives out the number of a transaction.
    pub fn next_tx_id(&mut self) -> (r: u64)
        requires
            old(self).wf(),
            old(self).next_tx() < u64::MAX,
        ensures
            final(self).wf(),
            r == old(self).next_tx(),
            final(self).next_tx() == r + 1,
            final(self).next_seq() == old(self).next_seq(),
            final(self).visible() == old(self).visible(),
            final(self).readers() == old(self).readers(),
            final(self).remembered() == old(self).remembered(),
            final(self).commits() == old(self).commits(),
    {
        let id: u64 = self.tx_id;
        self.tx_id = id + 1;
        id
    }

    /// The sequence number at which a new reader reads.
    pub fn read_ts(&self) -> (r: u64)
        ensures
            r == self.visible(),
    {
        self.visible
    }

    /// Whether one more reader can be counted.
    pub fn has_reader_room(&self) -> (r: bool)
        ensures
            r == self.reader_room(),
    {
        match self.active.get(&self.visible) {
            Some(n) => *n < u64::MAX,
            None => true,
        }
    }

    /// Where the first reader reads, or `visible` when there is none.
    fn first_active(&self, visible: u64) -> (r: u64)
        requires
            self.active@.dom().finite(),
        ensures
            r == first_reader(self.readers(), visible),
    {
        let mut low: Option<u64> = None;
        for ts in it: self.active.keys()
            invariant
                low is None <==> it.index() == 0,
                low matches Some(l) ==> self.active@.contains_key(l),
                forall|i: int|
                    0 <= i < it.index() ==> (low matches Some(l) && l <= *#[trigger] it.seq()[i]),
                it.seq().unref().to_set() == self.active@.dom(),
        {
            assert(it.seq().unref()[it.index() as int] == *ts);
            assert(it.seq().unref().to_set().contains(*ts));
            low = match low {
                Some(l) if l <= *ts => Some(l),
                _ => Some(*ts),
            };
        }
        proof {
            lemma_first_reader(self.readers(), visible);
        }
        match low {
            Some(l) => {
                assert(is_first(self.readers(), visible, l));
                l
            },
            None => {
                assert(is_first(self.readers(), visible, visible));
                visible
            },
        }
    }

    /// The sequence number below which no reader is.
    pub fn watermark(&self) -> (r: u64)
        requires
            self.wf(),
        ensures
            r == self.line(),
            r <= self.visible(),
            forall|t: u64| #[trigger] self.readers().contains_key(t) ==> r <= t,
    {
        proof {
            self.lemma_bounds();
        }
        self.first_active(self.visible)
    }

    /// Registers a reader of what is visible now.
    pub fn begin(&mut self) -> (r: u64)
        requires
            old(self).wf(),
            old(self).reader_room(),
        ensures
            final(self).wf(),
            r == old(self).visible(),
            final(self).readers() == with(old(self).readers(), r),
            final(self).next_tx() == old(self).next_tx(),
            final(self).next_seq() == old(self).next_seq(),
            final(self).visible() == old(self).visible(),
            final(self).remembered() == old(self).remembered(),
            final(self).commits() == old(self).commits(),
    {
        let read_ts: u64 = self.visible;
        let n: u64 = match self.active.get(&read_ts) {
            Some(n) => *n,
            None => 0,
        };
        let _ = self.active.insert(read_ts, n + 1);
        proof {
            old(self).lemma_bounds();
            lemma_first_reader(self.readers(), self.visible());
            assert(self.readers().dom().contains(read_ts));
            assert(old(self).line() <= self.line());
        }
        read_ts
    }

    /// Takes back the registration of a reader at `read_ts`.
    pub fn end(&mut self, read_ts: u64)
        requires
            old(self).wf(),
        ensures
            final(self).wf(),
            final(self).readers() == without(old(self).readers(), read_ts),
            final(self).next_tx() == old(self).next_tx(),
            final(self).next_seq() == old(self).next_seq(),
            final(self).visible() == old(self).visible(),
            final(self).remembered() == old(self).remembered(),
            final(self).commits() == old(self).commits(),
    {
        let n: u64 = match self.active.get(&read_ts) {
            Some(n) => *n,
            None => 0,
        };
        if n == 1 {
            let _ = self.active.remove(&read_ts);
        } else if n > 1 {
            let _ = self.active.insert(read_ts, n - 1);
        }
        proof {
            old(self).lemma_bounds();
            assert(self.readers() == without(old(self).readers(), read_ts));
            lemma_first_reader(self.readers(), self.visible());
            assert(old(self).line() <= self.line());
        }
    }
}

impl Oracle {
    /// Checks a commit for conflicts and gives it its sequence number. Without
    /// `read_ts` nothing conflicts. All writes share the sequence number.
    pub fn prepare(&mut self, read_ts: Option<u64>, buffer: &SortedMap<Value>) -> (r: DbResult<
        (u64, Vec<(Key, Value)>),
    >)
        requires
            old(self).wf(),
            buffer.wf(),
            old(self).next_seq() < u64::MAX,
        ensures
            final(self).wf(),
            final(self).visible() == old(self).visible(),
            final(self).next_tx() == old(self).next_tx(),
            final(self).readers() == old(self).readers(),
            final(self).remembered() == old(self).remembered(),
            final(self).commits() == old(self).commits(),
            r is Err <==> (read_ts matches Some(ts) && exists|i: int|
                0 <= i < buffer.pairs().len() && old(self).remembered().contains_key(
                    (#[trigger] buffer.pairs()[i]).0,
                ) && old(self).remembered()[buffer.pairs()[i].0] > ts),
            (read_ts matches Some(ts) ==> forall|i: int|
                0 <= i < buffer.pairs().len() && old(self).commits().contains_key(
                    (#[trigger] buffer.pairs()[i]).0,
                ) ==> old(self).commits()[buffer.pairs()[i].0] <= ts) ==> r is Ok,
            match r {
                Err(e) => {
                    &&& e is CommitConflict
                    &&& conflicts(old(self).remembered(), buffer.pairs(), read_ts)
                    &&& final(self).next_seq() == old(self).next_seq()
                },
                Ok((ts, batch)) => {
                    &&& !conflicts(old(self).remembered(), buffer.pairs(), read_ts)
                    &&& ts == old(self).next_seq()
                    &&& final(self).next_seq() == ts + 1
                    &&& scan_table::pairs(batch@) == writes(buffer.pairs(), ts)
                },
            },
    {
        match read_ts {
            Some(read_ts) => {
                if self.committed_after(read_ts, buffer) {
                    proof {
                        let i = choose|i: int|
                            0 <= i < buffer.pairs().len() && self.remembered().contains_key(
                                (#[trigger] buffer.pairs()[i]).0,
                            ) && self.remembered()[buffer.pairs()[i].0] > read_ts;
                        assert(self.recent@.contains_key(buffer.pairs()[i].0));
                        assert(self.commits().contains_key(buffer.pairs()[i].0));
                    }
                    return Err(DbError::CommitConflict);
                }
            },
            None => {},
        }
        let commit_ts: u64 = self.next_seq;
        self.next_seq = commit_ts + 1;
        let mut batch: Vec<(Key, Value)> = Vec::new();
        let ghost ps = buffer.pairs();
        let n: usize = buffer.len();
        let mut i: usize = 0;
        while i < n
            invariant
                i <= n == ps.len(),
                ps == buffer.pairs(),
                batch@.len() == i,
                scan_table::pairs(batch@) == writes(ps, commit_ts).take(i as int),
            decreases n - i,
        {
            let (k, v) = buffer.at(i);
            let ghost before = batch@;
            batch.push((Key::new(k, commit_ts), v.clone()));
            i += 1;
            assert(scan_table::pairs(batch@) =~= scan_table::pairs(before).push(
                writes(ps, commit_ts)[i - 1],
            ));
            assert(writes(ps, commit_ts).take(i as int) =~= writes(ps, commit_ts).take(
                i - 1,
            ).push(writes(ps, commit_ts)[i - 1]));
        }
        assert(writes(ps, commit_ts).take(i as int) =~= writes(ps, commit_ts));
        Ok((commit_ts, batch))
    }

    /// Whether one of the keys was committed after `read_ts`.
    fn committed_after(&self, read_ts: u64, buffer: &SortedMap<Value>) -> (r: bool)
        requires
            self.wf(),
        ensures
            r == conflicts(self.remembered(), buffer.pairs(), Some(read_ts)),
            r <==> exists|i: int|
                0 <= i < buffer.pairs().len() && self.remembered().contains_key(
                    (#[trigger] buffer.pairs()[i]).0,
                ) && self.remembered()[buffer.pairs()[i].0] > read_ts,
    {
        let n: usize = buffer.len();
        let mut i: usize = 0;
        while i < n
            invariant
                self.wf(),
                i <= n == buffer.pairs().len(),
                forall|j: int|
                    0 <= j < i ==> !(self.recent@.contains_key((#[trigger] buffer.pairs()[j]).0)
                        && self.recent@[buffer.pairs()[j].0] > read_ts),
            decreases n - i,
        {
            let (k, _) = buffer.at(i);
            match self.recent.get(k) {
                Some(ts) => {
                    if *ts > read_ts {
                        assert(self.recent@[buffer.pairs()[i as int].0] > read_ts);
                        return true;
                    }
                },
                None => {},
            }
            i += 1;
        }
        false
    }

    /// Makes a commit visible: remembers its keys, and forgets the commits that
    /// all readers see from the start.
    pub fn publish(&mut self, buffer: &SortedMap<Value>, commit_ts: u64)
        requires
            old(self).wf(),
            buffer.wf(),
            old(self).visible() < commit_ts < old(self).next_seq(),
        ensures
            final(self).wf(),
            final(self).visible() == commit_ts,
            final(self).next_seq() == old(self).next_seq(),
            final(self).next_tx() == old(self).next_tx(),
            final(self).readers() == old(self).readers(),
            final(self).commits() == stamped(old(self).commits(), buffer.pairs(), commit_ts),
            final(self).remembered() == above(
                stamped(old(self).remembered(), buffer.pairs(), commit_ts),
                final(self).line(),
            ),
    {
        let ghost ps = buffer.pairs();
        let ghost was = *self;
        let n: usize = buffer.len();
        let mut i: usize = 0;
        assert(ps.take(0) =~= Seq::empty());
        while i < n
            invariant
                i <= n == ps.len(),
                ps == buffer.pairs(),
                self.recent.wf(),
                self.recent@ == stamped(was.recent@, ps.take(i as int), commit_ts),
                self.next_seq == was.next_seq,
                self.visible == was.visible,
                self.tx_id == was.tx_id,
                self.active == was.active,
                self.last == was.last,
            decreases n - i,
        {
            let (k, _) = buffer.at(i);
            self.recent.insert(k.to_owned(), commit_ts);
            assert(ps.take(i + 1).drop_last() =~= ps.take(i as int));
            i += 1;
        }
        assert(ps.take(i as int) =~= ps);
        self.visible = commit_ts;
        proof {
            self.last@ = stamped(was.last@, ps, commit_ts);
        }
        let line: u64 = self.first_active(commit_ts);
        let ghost all = self.recent@;
        self.recent = retain_above(&self.recent, line);
        proof {
            was.lemma_bounds();
            assert(self.line() == line);
            lemma_first_reader(self.readers(), commit_ts);
            assert(was.line() <= line);
            assert forall|k: Seq<char>| #[trigger] self.last@.contains_key(k) implies self.last@[k]
                <= self.visible && (self.recent@.contains_key(k) || self.last@[k] <= line) by {
                lemma_stamped(was.last@, ps, commit_ts, k);
                lemma_stamped(was.recent@, ps, commit_ts, k);
            }
            assert forall|k: Seq<char>| #[trigger] self.recent@.contains_key(k) implies
                self.last@.contains_key(k) && self.last@[k] == self.recent@[k] by {
                lemma_stamped(was.last@, ps, commit_ts, k);
                lemma_stamped(was.recent@, ps, commit_ts, k);
            }
        }
    }

    /// Commits the writes in `buffer`: fails when one of the keys was committed
    /// after `read_ts`, else logs the writes, writes them to the table in memory,
    /// makes them visible, and freezes the table if it is full. Without `read_ts`
    /// nothing conflicts.
    pub fn commit(
        &mut self,
        tx_id: u64,
        storage: &mut Storage,
        read_ts: Option<u64>,
        buffer: SortedMap<Value>,
    ) -> (r: DbResult<u64>)
        requires
            old(self).wf(),
            old(storage).wf(),
            buffer.wf(),
            old(self).next_seq() < u64::MAX,
            old(storage).next_log() < u64::MAX,
        ensures
            final(self).wf(),
            final(storage).wf(),
            final(self).next_tx() == old(self).next_tx(),
            final(self).readers() == old(self).readers(),
            r matches Ok(ts) ==> ts == old(self).next_seq(),
            (read_ts matches Some(ts) ==> forall|i: int|
                0 <= i < buffer.pairs().len() && old(self).commits().contains_key(
                    (#[trigger] buffer.pairs()[i]).0,
                ) ==> old(self).commits()[buffer.pairs()[i].0] <= ts) && buffer.pairs().len()
                <= 65535 && (forall|i: int|
                0 <= i < buffer.pairs().len() ==> encode_utf8(
                    (#[trigger] buffer.pairs()[i]).0,
                ).len() <= 65535 && (buffer.pairs()[i].1@ matches ValueView::Put(s) ==> encode_utf8(
                    s,
                ).len() <= 65535)) ==> r is Ok,
            attempted(
                failure(r),
                (*old(self), *old(storage)),
                (*final(self), *final(storage)),
                tx_id,
                read_ts,
                buffer.pairs(),
            ),
            final(storage).log_dir() == old(storage).log_dir(),
            final(storage).stopping() == old(storage).stopping(),
            final(storage).pins() == old(storage).pins(),
    {
        let (commit_ts, batch) = match self.prepare(read_ts, &buffer) {
            Ok(p) => p,
            Err(e) => {
                return Err(e);
            },
        };
        proof {
            lemma_writes_fit(buffer.pairs(), commit_ts, tx_id);
        }
        match storage.set_batch(tx_id, batch) {
            Ok(_) => {},
            Err(e) => {
                return Err(e);
            },
        }
        proof {
            old(self).lemma_bounds();
        }
        self.publish(&buffer, commit_ts);
        let ghost mid = *storage;
        match storage.freeze_if_full() {
            Ok(_) => {},
            Err(e) => {
                return Err(e);
            },
        }
        assert(wrote_then_froze(
            *old(storage),
            mid,
            *storage,
            tx_id,
            writes(buffer.pairs(), commit_ts),
        ));
        Ok(commit_ts)
    }

    /// Freezes the table in memory if it holds anything. No commit is under way,
    /// so a flush cannot drop a visible version for one that is not published.
    pub fn freeze(&self, storage: &mut Storage) -> (r: DbResult<()>)
        requires
            old(storage).wf(),
            old(storage).next_log() < u64::MAX,
        ensures
            r is Ok,
            storage::frozen_when(
                *old(storage),
                *final(storage),
                old(storage).state().mem_table.entries().len() > 0,
            ),
    {
        storage.freeze_active()
    }
}

/// The error of a result, if it is one.
pub open spec fn failure<T>(r: DbResult<T>) -> Option<DbError> {
    match r {
        Ok(_) => None,
        Err(e) => Some(e),
    }
}

/// What an attempt to commit the writes of `ps` makes of an oracle and a storage:
/// nothing when a key was committed after `read_ts`, nothing but that a sequence
/// number is used up and the transaction has begun in the log when the writes cannot
/// be logged, and else the commit.
pub open spec fn attempted(
    e: Option<DbError>,
    before: (Oracle, Storage),
    after: (Oracle, Storage),
    tx_id: u64,
    read_ts: Option<u64>,
    ps: Seq<(Seq<char>, Value)>,
) -> bool {
    let (o, s) = before;
    let ts = o.next_seq();
    if conflicts(o.remembered(), ps, read_ts) {
        &&& e matches Some(e) && e is CommitConflict
        &&& same_numbers(o, after.0)
        &&& after.0.next_seq() == ts
        &&& storage::alike(s, after.1)
    } else if !CmdView::Batch(tx_id, writes(ps, ts)).fits() {
        &&& e matches Some(e) && e is InvalidInt
        &&& same_numbers(o, after.0)
        &&& after.0.next_seq() == ts + 1
        &&& storage::refused_in(s.state(), after.1.state(), tx_id)
        &&& after.1.next_log() == s.next_log()
        &&& after.1.waiting() == s.waiting()
        &&& after.1.log_dir() == s.log_dir()
        &&& after.1.stopping() == s.stopping()
    } else {
        &&& e is None
        &&& after.0.next_seq() == ts + 1
        &&& after.0.visible() == ts
        &&& after.0.commits() == stamped(o.commits(), ps, ts)
        &&& after.0.remembered() == above(
            stamped(o.remembered(), ps, ts),
            first_reader(o.readers(), ts),
        )
        &&& committed(s, after.1, tx_id, writes(ps, ts))
    }
}

/// Whether two oracles see the same commits.
pub open spec fn same_numbers(a: Oracle, b: Oracle) -> bool {
    &&& a.visible() == b.visible()
    &&& a.remembered() == b.remembered()
    &&& a.commits() == b.commits()
}

/// Whether `mid` is `a` once entries were logged and written, and `b` is `mid`
/// with its table in memory frozen if that is full.
pub open spec fn wrote_then_froze(
    a: Storage,
    mid: Storage,
    b: Storage,
    tx_id: u64,
    es: Seq<Entry>,
) -> bool {
    &&& mid.wf()
    &&& mid.log_dir() == a.log_dir()
    &&& mid.next_log() == a.next_log()
    &&& mid.waiting() == a.waiting()
    &&& mid.stopping() == a.stopping()
    &&& storage::set_in(Ok(()), a.state(), mid.state(), tx_id, es)
    &&& storage::frozen_when(
        mid,
        b,
        mid.state().mem_table.usage() >= mid.state().mem_table.limit(),
    )
}

/// Whether `b` is `a` once a transaction has been committed.
pub open spec fn committed(a: Storage, b: Storage, tx_id: u64, es: Seq<Entry>) -> bool {
    exists|mid: Storage| #[trigger] wrote_then_froze(a, mid, b, tx_id, es)
}

/// The pairs above `line`.
fn retain_above(m: &SortedMap<u64>, line: u64) -> (r: SortedMap<u64>)
    requires
        m.wf(),
    ensures
        r.wf(),
        r@ == above(m@, line),
{
    broadcast use text::lemma_text_irreflexive;

    let ghost ps = m.pairs();
    let mut r: SortedMap<u64> = SortedMap::new();
    let n: usize = m.len();
    let mut i: usize = 0;
    assert(ps.take(0) =~= Seq::empty());
    assert(r@ =~= above(sorted::map_of_pairs(ps.take(0)), line));
    while i < n
        invariant
            i <= n == ps.len(),
            ps == m.pairs(),
            sorted::keys_ascend(ps),
            r.wf(),
            r@ == above(sorted::map_of_pairs(ps.take(i as int)), line),
            r.pairs().len() > 0 ==> i > 0 && (r.pairs().last().0 == ps[i - 1].0 || text::text_lt(
                r.pairs().last().0,
                ps[i - 1].0,
            )),
        decreases n - i,
    {
        broadcast use {text::lemma_text_irreflexive, text::lemma_text_transitive};

        let (k, ts) = m.at(i);
        let ghost before = sorted::map_of_pairs(ps.take(i as int));
        let ghost next = ps.take(i + 1);
        assert(next.drop_last() =~= ps.take(i as int));
        proof {
            if i > 0 {
                assert(text::text_lt(ps[i - 1].0, ps[i as int].0));
            }
            assert(!before.contains_key(k@)) by {
                let prev = ps.take(i as int);
                assert(sorted::keys_ascend(prev)) by {
                    assert forall|a: int, b: int| 0 <= a < b < prev.len() implies text::text_lt(
                        (#[trigger] prev[a]).0,
                        (#[trigger] prev[b]).0,
                    ) by {
                        assert(prev[a] == ps[a] && prev[b] == ps[b]);
                    }
                }
                sorted::lemma_map_of_pairs(prev);
                if before.contains_key(k@) {
                    let x = choose|x: int| 0 <= x < prev.len() && (#[trigger] prev[x]).0 == k@;
                    assert(text::text_lt(ps[x].0, ps[i as int].0));
                }
            }
        }
        if *ts > line {
            r.push(k.to_owned(), *ts);
        }
        assert(r@ =~= above(sorted::map_of_pairs(next), line));
        i += 1;
    }
    assert(ps.take(i as int) =~= ps);
    r
}

/// Forgetting commits hides no conflict: a registered reader conflicts with what
/// is remembered exactly when one of its keys was committed after it began to
/// read.
pub proof fn law_no_conflict_is_hidden(
    o: Oracle,
    ps: Seq<(Seq<char>, Value)>,
    read_ts: u64,
)
    requires
        o.wf(),
        o.readers().contains_key(read_ts),
    ensures
        conflicts(o.remembered(), ps, Some(read_ts)) == conflicts(o.commits(), ps, Some(read_ts)),
{
    o.lemma_bounds();
    assert(o.line() <= read_ts);
    if conflicts(o.commits(), ps, Some(read_ts)) {
        let i = choose|i: int|
            0 <= i < ps.len() && o.commits().contains_key((#[trigger] ps[i]).0)
                && o.commits()[ps[i].0] > read_ts;
        assert(o.last@.contains_key(ps[i].0));
        assert(o.recent@.contains_key(ps[i].0));
    }
    if conflicts(o.remembered(), ps, Some(read_ts)) {
        let i = choose|i: int|
            0 <= i < ps.len() && o.remembered().contains_key((#[trigger] ps[i]).0)
                && o.remembered()[ps[i].0] > read_ts;
        assert(o.recent@.contains_key(ps[i].0));
        assert(o.commits().contains_key(ps[i].0));
    }
}

/// A transaction that begins after a commit does not conflict with it.
pub proof fn law_new_readers_do_not_conflict(o: Oracle, ps: Seq<(Seq<char>, Value)>)
    requires
        o.wf(),
    ensures
        !conflicts(o.remembered(), ps, Some(o.visible())),
        !conflicts(o.commits(), ps, Some(o.visible())),
{
    assert forall|k: Seq<char>| #[trigger] o.remembered().contains_key(k) implies o.remembered()[k]
        <= o.visible() by {
        assert(o.last@.contains_key(k));
    }
    assert forall|k: Seq<char>| #[trigger] o.commits().contains_key(k) implies o.commits()[k]
        <= o.visible() by {
        assert(o.last@.contains_key(k));
    }
}

/// A commit whose key another commit wrote after the reader began conflicts with
/// it: of two transactions that write the same key the first to commit wins.
pub proof fn law_first_committer_wins(
    before: Map<Seq<char>, u64>,
    first: Seq<(Seq<char>, Value)>,
    ts: u64,
    second: Seq<(Seq<char>, Value)>,
    read_ts: u64,
    i: int,
    j: int,
)
    requires
        0 <= i < first.len(),
        0 <= j < second.len(),
        first[i].0 == second[j].0,
        read_ts < ts,
    ensures
        conflicts(stamped(before, first, ts), second, Some(read_ts)),
{
    lemma_stamped(before, first, ts, second[j].0);
    assert(stamped(before, first, ts).contains_key(second[j].0));
}

/// What a commit does to the layers: its writes go to the first one, and a full
/// table is frozen behind an empty layer.
pub proof fn lemma_committed(a: Storage, b: Storage, tx_id: u64, es: Seq<Entry>)
    requires
        committed(a, b, tx_id, es),
    ensures
        ({
            let after = layers::wrote(a.state().layers(), es);
            b.state().layers() == after || b.state().layers() == seq![
                Map::<KeyView, ValueView>::empty(),
            ] + after
        }),
        b.state().storage == a.state().storage,
        a.state().layers().len() > 0,
{
    let mid = choose|mid: Storage| #[trigger] wrote_then_froze(a, mid, b, tx_id, es);
    if mid.state().mem_table.usage() >= mid.state().mem_table.limit() {
        storage::lemma_froze(mid.state(), b.state(), mid.next_log());
    }
}

/// A reader below a commit sees nothing of it: its answers stay as they are.
pub proof fn law_commit_below(
    a: Storage,
    b: Storage,
    tx_id: u64,
    es: Seq<Entry>,
    ts: u64,
    user: Seq<char>,
    snap: u64,
)
    requires
        committed(a, b, tx_id, es),
        layers::one_commit(es, ts),
        snap < ts,
    ensures
        layers::read(b.state().layers(), user, snap) == layers::read(
            a.state().layers(),
            user,
            snap,
        ),
{
    lemma_committed(a, b, tx_id, es);
    layers::law_commit_is_invisible_below(a.state().layers(), es, ts, user, snap);
    layers::law_freeze_keeps_answers(layers::wrote(a.state().layers(), es), user, snap);
}

/// A reader at or above a commit sees all of it, when nothing was newer.
pub proof fn law_commit_above(
    a: Storage,
    b: Storage,
    tx_id: u64,
    es: Seq<Entry>,
    ts: u64,
    i: int,
    snap: u64,
)
    requires
        committed(a, b, tx_id, es),
        layers::one_commit(es, ts),
        0 <= i < es.len(),
        ts <= snap,
        forall|k: KeyView| #[trigger] a.state().mem_table@.contains_key(k) ==> k.seq < ts,
    ensures
        layers::read(b.state().layers(), es[i].0.user, snap)
            == LookupView::of(es[i].1),
{
    lemma_committed(a, b, tx_id, es);
    assert(a.state().layers()[0] == a.state().mem_table@);
    layers::law_commit_is_visible_above(a.state().layers(), es, ts, i, snap);
    layers::law_freeze_keeps_answers(
        layers::wrote(a.state().layers(), es),
        es[i].0.user,
        snap,
    );
}

/// A commit changes nothing under other keys.
pub proof fn law_commit_others(
    a: Storage,
    b: Storage,
    tx_id: u64,
    es: Seq<Entry>,
    user: Seq<char>,
    snap: u64,
)
    requires
        committed(a, b, tx_id, es),
        forall|i: int| 0 <= i < es.len() ==> (#[trigger] es[i]).0.user != user,
    ensures
        layers::read(b.state().layers(), user, snap) == layers::read(
            a.state().layers(),
            user,
            snap,
        ),
{
    lemma_committed(a, b, tx_id, es);
    layers::law_commit_leaves_other_keys(a.state().layers(), es, user, snap);
    layers::law_freeze_keeps_answers(layers::wrote(a.state().layers(), es), user, snap);
}

/// A commit above everything keeps the layers in order.
pub proof fn law_commit_order(
    a: Storage,
    b: Storage,
    tx_id: u64,
    es: Seq<Entry>,
    ts: u64,
    top: u64,
)
    requires
        committed(a, b, tx_id, es),
        layers::one_commit(es, ts),
        layers::recent_first(a.state().layers()),
        layers::at_most(a.state().layers(), top),
        top < ts,
    ensures
        layers::recent_first(b.state().layers()),
        layers::at_most(b.state().layers(), ts),
{
    lemma_committed(a, b, tx_id, es);
    layers::law_commit_keeps_order(a.state().layers(), es, ts, top);
    layers::law_freeze_keeps_order(layers::wrote(a.state().layers(), es), ts);
}

/// A commit changes nothing for a reader below it.
pub proof fn law_reader_ignores_commit(
    a: Storage,
    b: Storage,
    tx_id: u64,
    es: Seq<Entry>,
    ts: u64,
    user: Seq<char>,
    snap: u64,
    since: u64,
)
    requires
        committed(a, b, tx_id, es),
        layers::one_commit(es, ts),
        snap < ts,
        b.pins() == a.pins(),
    ensures
        b.finds_since(user, snap, since) == a.finds_since(user, snap, since),
{
    let mid = choose|mid: Storage| #[trigger] wrote_then_froze(a, mid, b, tx_id, es);
    let when = mid.state().mem_table.usage() >= mid.state().mem_table.limit();
    let ls = a.memory_since(since);
    assert(mid.memory_since(since) =~= layers::wrote(ls, es));
    layers::law_commit_is_invisible_below(ls, es, ts, user, snap);
    storage::law_reader_ignores_freeze(mid, b, when, user, snap, since);
}

/// The writes of pairs fit the log exactly when there are at most 65535 of them, and
/// each key and each text has at most 65535 bytes.
pub proof fn lemma_writes_fit(ps: Seq<(Seq<char>, Value)>, ts: u64, tx_id: u64)
    ensures
        CmdView::Batch(tx_id, writes(ps, ts)).fits() <==> ps.len() <= 65535 && (forall|i: int|
            0 <= i < ps.len() ==> encode_utf8((#[trigger] ps[i]).0).len() <= 65535 && (
            ps[i].1@ matches ValueView::Put(s) ==> encode_utf8(s).len() <= 65535)),
{
    let es = writes(ps, ts);
    if CmdView::Batch(tx_id, es).fits() {
        assert forall|i: int| 0 <= i < ps.len() implies encode_utf8((#[trigger] ps[i]).0).len()
            <= 65535 && (ps[i].1@ matches ValueView::Put(s) ==> encode_utf8(s).len() <= 65535) by {
            assert(encode::entry_fits(es[i]));
            encode::law_entry_fits(es[i]);
        }
    }
    if ps.len() <= 65535 && (forall|i: int|
        0 <= i < ps.len() ==> encode_utf8((#[trigger] ps[i]).0).len() <= 65535 && (
        ps[i].1@ matches ValueView::Put(s) ==> encode_utf8(s).len() <= 65535)) {
        assert forall|i: int| 0 <= i < es.len() implies encode::entry_fits(#[trigger] es[i]) by {
            assert(encode_utf8(ps[i].0).len() <= 65535);
            encode::law_entry_fits(es[i]);
        }
    }
}

/// A commit conflicts exactly when one of the keys that it writes was itself committed
/// after it began to read. What was committed under other keys does not matter, and
/// without a place at which it reads nothing conflicts.
pub proof fn law_conflict_is_on_a_written_key(
    m: Map<Seq<char>, u64>,
    ps: Seq<(Seq<char>, Value)>,
    read_ts: u64,
)
    ensures
        conflicts(m, ps, Some(read_ts)) <==> exists|i: int|
            0 <= i < ps.len() && m.contains_key((#[trigger] ps[i]).0) && m[ps[i].0] > read_ts,
        !conflicts(m, ps, None),
{
}

/// Commits of different keys do not conflict: what did not conflict before another
/// commit does not conflict after it, if that wrote none of its keys.
pub proof fn law_disjoint_commits_do_not_conflict(
    m: Map<Seq<char>, u64>,
    first: Seq<(Seq<char>, Value)>,
    ts: u64,
    second: Seq<(Seq<char>, Value)>,
    read_ts: u64,
)
    requires
        forall|i: int, j: int|
            0 <= i < first.len() && 0 <= j < second.len() ==> (#[trigger] first[i]).0 != (
            #[trigger] second[j]).0,
        forall|j: int|
            0 <= j < second.len() && m.contains_key((#[trigger] second[j]).0) ==> m[second[j].0]
                <= read_ts,
    ensures
        !conflicts(stamped(m, first, ts), second, Some(read_ts)),
{
    assert forall|j: int|
        0 <= j < second.len() && stamped(m, first, ts).contains_key(
            (#[trigger] second[j]).0,
        ) implies stamped(m, first, ts)[second[j].0] <= read_ts by {
        lemma_stamped(m, first, ts, second[j].0);
    }
}

/// A commit stamps the keys that it writes, and no others.
pub proof fn law_commit_stamps_its_keys(
    m: Map<Seq<char>, u64>,
    ps: Seq<(Seq<char>, Value)>,
    ts: u64,
    k: Seq<char>,
)
    ensures
        (exists|i: int| 0 <= i < ps.len() && (#[trigger] ps[i]).0 == k) ==> stamped(
            m,
            ps,
            ts,
        ).contains_key(k) && stamped(m, ps, ts)[k] == ts,
        (forall|i: int| 0 <= i < ps.len() ==> (#[trigger] ps[i]).0 != k) ==> (stamped(
            m,
            ps,
            ts,
        ).contains_key(k) <==> m.contains_key(k)) && (m.contains_key(k) ==> stamped(m, ps, ts)[k]
            == m[k]),
{
    lemma_stamped(m, ps, ts, k);
}

/// The line below which no reader is: no reader is below it, and one is at it, unless
/// there is none, and then it is what is visible.
pub proof fn law_line(o: Oracle)
    requires
        o.wf(),
    ensures
        forall|t: u64| #[trigger] o.readers().contains_key(t) ==> o.line() <= t,
        o.readers().contains_key(o.line()) || (o.line() == o.visible() && forall|t: u64|
            !#[trigger] o.readers().contains_key(t)),
        o.line() <= o.visible(),
{
    o.lemma_bounds();
    if o.readers().dom().len() == 0 {
        assert forall|t: u64| !#[trigger] o.readers().contains_key(t) by {
            if o.readers().dom().contains(t) {
                assert(o.readers().dom().remove(t).len() < o.readers().dom().len());
            }
        }
    }
}

/// Registering a reader adds one to those that read where it reads, and taking it back
/// takes one away; all others stay.
pub proof fn law_readers_are_counted(readers: Map<u64, u64>, ts: u64, t: u64)
    requires
        readers.contains_key(ts) ==> 0 < readers[ts] < u64::MAX,
    ensures
        with(readers, ts).contains_key(ts),
        with(readers, ts)[ts] == (if readers.contains_key(ts) {
            readers[ts] + 1
        } else {
            1
        }),
        t != ts ==> (with(readers, ts).contains_key(t) <==> readers.contains_key(t)) && (
        readers.contains_key(t) ==> with(readers, ts)[t] == readers[t]),
        t != ts ==> (without(readers, ts).contains_key(t) <==> readers.contains_key(t)) && (
        readers.contains_key(t) ==> without(readers, ts)[t] == readers[t]),
        without(readers, ts).contains_key(ts) <==> readers.contains_key(ts) && readers[ts] > 1,
        without(with(readers, ts), ts) == readers,
{
    assert(without(with(readers, ts), ts) =~= readers);
}

/// What becomes of an attempt to commit. It succeeds when none of its keys was
/// committed after it began to read, there are at most 65535 writes, and each key and
/// text has at most 65535 bytes. A registered reader of whose keys one was committed
/// since is refused, and so are writes that are too many or too long. What succeeds is
/// the last commit of the keys that it writes, and of no others; what fails commits
/// nothing. The records of a commit wait to be written, and all that waited before.
/// Behind a commit the table in memory is not full: it was frozen if it was,
/// and only then.
pub proof fn law_attempted(
    e: Option<DbError>,
    before: (Oracle, Storage),
    after: (Oracle, Storage),
    tx_id: u64,
    read_ts: Option<u64>,
    ps: Seq<(Seq<char>, Value)>,
)
    requires
        before.0.wf(),
        attempted(e, before, after, tx_id, read_ts, ps),
    ensures
        (read_ts matches Some(ts) ==> forall|i: int|
            0 <= i < ps.len() && before.0.commits().contains_key((#[trigger] ps[i]).0)
                ==> before.0.commits()[ps[i].0] <= ts) && ps.len() <= 65535 && (forall|i: int|
            0 <= i < ps.len() ==> encode_utf8((#[trigger] ps[i]).0).len() <= 65535 && (
            ps[i].1@ matches ValueView::Put(s) ==> encode_utf8(s).len() <= 65535)) ==> e is None,
        e is None ==> ps.len() <= 65535 && (forall|i: int|
            0 <= i < ps.len() ==> encode_utf8((#[trigger] ps[i]).0).len() <= 65535 && (
            ps[i].1@ matches ValueView::Put(s) ==> encode_utf8(s).len() <= 65535)),
        forall|i: int|
            0 <= i < ps.len() && before.0.commits().contains_key((#[trigger] ps[i]).0) && (
            read_ts matches Some(ts) && before.0.readers().contains_key(ts)
                && before.0.commits()[ps[i].0] > ts) ==> (e matches Some(x) && x is CommitConflict),
        (e matches Some(x) && x is CommitConflict) ==> (read_ts matches Some(ts) && exists|i: int|
            0 <= i < ps.len() && before.0.commits().contains_key((#[trigger] ps[i]).0)
                && before.0.commits()[ps[i].0] > ts),
        e is None ==> after.0.visible() == before.0.next_seq() && after.0.next_seq()
            == before.0.next_seq() + 1,
        forall|i: int|
            e is None && 0 <= i < ps.len() ==> after.0.commits().contains_key((#[trigger] ps[i]).0)
                && after.0.commits()[ps[i].0] == before.0.next_seq(),
        forall|k: Seq<char>|
            e is Some || (forall|i: int| 0 <= i < ps.len() ==> (#[trigger] ps[i]).0 != k) ==> (
            #[trigger] after.0.commits().contains_key(k) <==> before.0.commits().contains_key(k))
                && (before.0.commits().contains_key(k) ==> after.0.commits()[k]
                == before.0.commits()[k]),
        e is Some ==> after.0.visible() == before.0.visible(),
        e is None ==> {
            let (a, b) = (before.1.state(), after.1.state());
            &&& b.mem_table.usage() < b.mem_table.limit()
            &&& b.storage == a.storage
            &&& b.frozen@ == a.frozen@ || (b.frozen@.len() == a.frozen@.len() + 1
                && b.frozen@.drop_first() == a.frozen@ && b.frozen@[0].usage()
                >= b.frozen@[0].limit())
        },
        e is Some ==> storage::same_tables(before.1.state(), after.1.state()),
        e is None ==> {
            let (a, b) = (before.1, after.1);
            let log = a.state().wal.unwritten() + writer::commit_bytes(
                tx_id,
                Seq::new(
                    ps.len(),
                    |i: int| (KeyView { user: ps[i].0, seq: before.0.next_seq() }, ps[i].1@),
                ),
            );
            ||| b.waiting() == a.waiting() && b.state().wal.name() == a.state().wal.name()
                && b.state().wal.unwritten() == log
            ||| b.waiting() == a.waiting().push(
                (path::joined(a.log_dir(), a.state().wal.name()), log),
            ) && b.state().wal.unwritten() == Seq::<u8>::empty()
        },
{
    if e is None {
        assert(writes(ps, before.0.next_seq()) =~= Seq::new(
            ps.len(),
            |i: int| (KeyView { user: ps[i].0, seq: before.0.next_seq() }, ps[i].1@),
        ));
        let es = writes(ps, before.0.next_seq());
        let mid = choose|mid: Storage| #[trigger]
            wrote_then_froze(before.1, mid, after.1, tx_id, es);
        if mid.state().mem_table.usage() >= mid.state().mem_table.limit() {
            assert(after.1.state().frozen@.drop_first() =~= before.1.state().frozen@);
        }
    }
    let o = before.0;
    let next = o.next_seq();
    lemma_writes_fit(ps, next, tx_id);
    if conflicts(o.remembered(), ps, read_ts) {
        let ts = read_ts->0;
        let i = choose|i: int|
            0 <= i < ps.len() && o.remembered().contains_key((#[trigger] ps[i]).0)
                && o.remembered()[ps[i].0] > ts;
        assert(o.recent@.contains_key(ps[i].0));
        assert(o.commits().contains_key(ps[i].0) && o.commits()[ps[i].0] > ts);
    }
    assert forall|i: int|
        0 <= i < ps.len() && o.commits().contains_key((#[trigger] ps[i]).0) && (
        read_ts matches Some(ts) && o.readers().contains_key(ts) && o.commits()[ps[i].0]
            > ts) implies (e matches Some(x) && x is CommitConflict) by {
        law_no_conflict_is_hidden(o, ps, read_ts->0);
        assert(conflicts(o.commits(), ps, read_ts));
    }
    assert forall|i: int| e is None && 0 <= i < ps.len() implies after.0.commits().contains_key(
        (#[trigger] ps[i]).0,
    ) && after.0.commits()[ps[i].0] == next by {
        lemma_stamped(o.commits(), ps, next, ps[i].0);
    }
    assert forall|k: Seq<char>|
        e is Some || (forall|i: int| 0 <= i < ps.len() ==> (#[trigger] ps[i]).0 != k) implies (
    #[trigger] after.0.commits().contains_key(k) <==> o.commits().contains_key(k)) && (
    o.commits().contains_key(k) ==> after.0.commits()[k] == o.commits()[k]) by {
        lemma_stamped(o.commits(), ps, next, k);
    }
}

} // verus!
