//! Tables that were flushed and stay readable for those who began to read before.

use vstd::multiset::Multiset;
use vstd::prelude::*;

use crate::common::lookup::Lookup;
use crate::memtable::MemTable;
use crate::storage::layers;
use crate::storage::state;

verus! {

/// The readers, and the tables that were flushed after the first of them began.
pub struct Pins {
    kept: Vec<(u64, MemTable)>,
    flushes: u64,
    holders: Vec<u64>,
}

/// The first of these tables, up to the first that was flushed before `since`.
pub open spec fn kept_since(kept: Seq<(u64, MemTable)>, since: u64) -> Seq<(u64, MemTable)>
    decreases kept.len(),
{
    if kept.len() == 0 || kept[0].0 < since {
        Seq::empty()
    } else {
        seq![kept[0]] + kept_since(kept.drop_first(), since)
    }
}

/// The tables of these.
pub open spec fn tables_of(kept: Seq<(u64, MemTable)>) -> Seq<MemTable> {
    Seq::new(kept.len(), |i: int| kept[i].1)
}

/// What was flushed since `high` is what of the tables since `low` was.
proof fn lemma_kept_since(kept: Seq<(u64, MemTable)>, low: u64, high: u64)
    requires
        low <= high,
    ensures
        kept_since(kept_since(kept, low), high) == kept_since(kept, high),
    decreases kept.len(),
{
    let part = kept_since(kept, low);
    if kept.len() > 0 && kept[0].0 >= low {
        let rest = kept.drop_first();
        lemma_kept_since(rest, low, high);
        assert(part.drop_first() =~= kept_since(rest, low));
    }
}

/// What was flushed since `since` is a first part of all.
proof fn lemma_kept_part(kept: Seq<(u64, MemTable)>, since: u64, n: int)
    requires
        0 <= n <= kept.len(),
        forall|i: int| 0 <= i < n ==> (#[trigger] kept[i]).0 >= since,
        n < kept.len() ==> kept[n].0 < since,
    ensures
        kept_since(kept, since) == kept.take(n),
    decreases kept.len(),
{
    if n > 0 {
        let rest = kept.drop_first();
        assert forall|i: int| 0 <= i < n - 1 implies (#[trigger] rest[i]).0 >= since by {
            assert(rest[i] == kept[i + 1]);
        }
        lemma_kept_part(rest, since, n - 1);
        assert(seq![kept[0]] + rest.take(n - 1) =~= kept.take(n));
    } else {
        assert(kept.take(0) =~= Seq::<(u64, MemTable)>::empty());
    }
}

impl Pins {
    /// The tables that are kept and when they were flushed, the newest first.
    pub closed spec fn kept(&self) -> Seq<(u64, MemTable)> {
        self.kept@
    }

    /// How many tables have been flushed.
    pub closed spec fn flushes(&self) -> u64 {
        self.flushes
    }

    /// How many tables had been flushed when each of the readers began.
    pub closed spec fn holders(&self) -> Multiset<u64> {
        self.holders@.to_multiset()
    }

    /// The tables that were flushed after `since` others, the newest first.
    pub open spec fn tables(&self, since: u64) -> Seq<MemTable> {
        tables_of(kept_since(self.kept(), since))
    }

    /// The tables are in good order, and were flushed before now.
    pub closed spec fn wf(&self) -> bool {
        &&& forall|i: int|
            0 <= i < self.kept@.len() ==> (#[trigger] self.kept@[i]).1.wf() && self.kept@[i].0
                < self.flushes
        &&& self.holders@.len() == 0 ==> self.kept@.len() == 0
    }

    /// Nothing was flushed after now.
    pub proof fn lemma_now(&self)
        requires
            self.wf(),
        ensures
            self.tables(self.flushes()) == Seq::<MemTable>::empty(),
    {
        assert(self.tables(self.flushes()) =~= Seq::<MemTable>::empty());
    }

    /// No readers, and no tables.
    pub fn new() -> (r: Self)
        ensures
            r.wf(),
            r.kept() == Seq::<(u64, MemTable)>::empty(),
            r.flushes() == 0,
            r.holders() == Multiset::<u64>::empty(),
    {
        broadcast use vstd::seq_lib::group_to_multiset_ensures;

        let r = Pins { kept: Vec::new(), flushes: 0, holders: Vec::new() };
        assert(r.holders() =~= Multiset::<u64>::empty());
        r
    }

    /// Whether one more flush can be counted.
    pub fn has_room(&self) -> (r: bool)
        ensures
            r == (self.flushes() < u64::MAX),
    {
        self.flushes < u64::MAX
    }

    /// Registers a reader that begins now.
    pub fn pin(&mut self) -> (since: u64)
        requires
            old(self).wf(),
        ensures
            final(self).wf(),
            since == old(self).flushes(),
            pinned(*old(self), *final(self)),
    {
        broadcast use vstd::seq_lib::group_to_multiset_ensures;

        let since: u64 = self.flushes;
        self.holders.push(since);
        since
    }

    /// Takes back the registration of a reader that began at `since`, and drops
    /// the tables that are kept for no other reader.
    pub fn unpin(&mut self, since: u64)
        requires
            old(self).wf(),
        ensures
            final(self).wf(),
            unpinned(*old(self), *final(self), since),
    {
        broadcast use vstd::seq_lib::group_to_multiset_ensures;

        let ghost before = self.holders@;
        let mut p: usize = 0;
        while p < self.holders.len() && self.holders[p] != since
            invariant
                p <= self.holders@.len(),
                *self == *old(self),
                before == self.holders@,
                forall|i: int| 0 <= i < p ==> before[i] != since,
            decreases self.holders@.len() - p,
        {
            p += 1;
        }
        if p < self.holders.len() {
            let _ = self.holders.remove(p);
            assert(before.contains(since)) by {
                assert(before[p as int] == since);
            }
        } else {
            assert(!before.contains(since));
        }
        assert(self.holders() =~= old(self).holders().remove(since));
        let ghost hs = self.holders@;
        let mut low: Option<u64> = None;
        let mut i: usize = 0;
        while i < self.holders.len()
            invariant
                i <= self.holders@.len(),
                hs == self.holders@,
                low is None <==> i == 0,
                low matches Some(l) ==> hs.contains(l),
                forall|j: int| 0 <= j < i ==> (low matches Some(l) && l <= #[trigger] hs[j]),
            decreases self.holders@.len() - i,
        {
            let h: u64 = self.holders[i];
            assert(hs.contains(h)) by {
                assert(hs[i as int] == h);
            }
            low = match low {
                Some(l) if l <= h => Some(l),
                _ => Some(h),
            };
            i += 1;
        }
        let low: u64 = match low {
            Some(l) => l,
            None => {
                self.kept.clear();
                assert(hs.len() == 0);
                return;
            },
        };
        let mut n: usize = 0;
        while n < self.kept.len() && self.kept[n].0 >= low
            invariant
                n <= self.kept@.len(),
                self.kept == old(self).kept,
                forall|j: int| 0 <= j < n ==> (#[trigger] self.kept@[j]).0 >= low,
            decreases self.kept@.len() - n,
        {
            n += 1;
        }
        self.kept.truncate(n);
        proof {
            lemma_kept_part(old(self).kept@, low, n as int);
            assert(self.kept@ =~= kept_since(old(self).kept@, low));
            assert forall|s: u64| #[trigger] self.holders().contains(s) implies low <= s by {
                assert(hs.contains(s));
                let j = choose|j: int| 0 <= j < hs.len() && hs[j] == s;
                assert(low <= hs[j]);
            }
            assert(lowest(self.holders(), low));
            assert forall|s: u64| #[trigger] self.holders().contains(s) implies self.tables(s)
                == old(self).tables(s) by {
                lemma_kept_since(old(self).kept@, low, s);
            }
        }
    }

    /// Counts a flush, and keeps the table that was flushed if there are readers.
    pub fn keep(&mut self, table: MemTable)
        requires
            old(self).wf(),
            table.wf(),
            old(self).flushes() < u64::MAX,
        ensures
            final(self).wf(),
            keeps(*old(self), *final(self), table),
    {
        broadcast use vstd::seq_lib::group_to_multiset_ensures;

        let at: u64 = self.flushes;
        if self.holders.len() > 0 {
            self.kept.insert(0, (at, table));
            assert(self.kept@ =~= seq![(at, table)] + old(self).kept@);
            assert forall|i: int| 0 <= i < self.kept@.len() implies (
            #[trigger] self.kept@[i]).1.wf() && self.kept@[i].0 < at + 1 by {
                if i > 0 {
                    assert(self.kept@[i] == old(self).kept@[i - 1]);
                }
            }
        } else {
            assert(self.kept@ =~= Seq::<(u64, MemTable)>::empty());
        }
        self.flushes = at + 1;
    }

    /// The newest version of `key` with a sequence number of at most `seq`, in the
    /// tables that were flushed after `since` others.
    pub fn get_since(&self, key: &str, seq: u64, since: u64) -> (r: Lookup)
        requires
            self.wf(),
        ensures
            r@ == layers::read(state::memory_of(self.tables(since)), key@, seq),
    {
        let ghost all = self.kept@;
        let mut i: usize = 0;
        assert(all.skip(0) =~= all);
        while i < self.kept.len() && self.kept[i].0 >= since
            invariant
                self.wf(),
                all == self.kept@,
                i <= all.len(),
                layers::read(state::memory_of(self.tables(since)), key@, seq) == layers::read(
                    state::memory_of(tables_of(kept_since(all.skip(i as int), since))),
                    key@,
                    seq,
                ),
            decreases all.len() - i,
        {
            let ghost here = all.skip(i as int);
            let ghost rest = all.skip(i + 1);
            let ghost (ls, ms) = (
                state::memory_of(tables_of(kept_since(here, since))),
                state::memory_of(tables_of(kept_since(rest, since))),
            );
            proof {
                assert(here.drop_first() =~= rest);
                assert(here[0] == all[i as int]);
                assert(ls.drop_first() =~= ms);
                assert(ls[0] == all[i as int].1@);
            }
            match self.kept[i].1.get_seq(key, seq) {
                Lookup::Absent => {},
                found => {
                    return found;
                },
            }
            i += 1;
        }
        Lookup::Absent
    }
}

/// Whether `b` is `a` with one more reader.
pub open spec fn pinned(a: Pins, b: Pins) -> bool {
    &&& b.kept() == a.kept()
    &&& b.flushes() == a.flushes()
    &&& b.holders() == a.holders().insert(a.flushes())
}

/// Whether `b` is `a` without a reader that began at `since`: the tables that
/// other readers need are there.
pub open spec fn unpinned(a: Pins, b: Pins, since: u64) -> bool {
    &&& b.flushes() == a.flushes()
    &&& b.holders() == a.holders().remove(since)
    &&& b.holders().len() == 0 ==> b.kept().len() == 0
    &&& b.holders().len() > 0 ==> exists|low: u64| #[trigger]
        lowest(b.holders(), low) && b.kept() == kept_since(a.kept(), low)
    &&& forall|s: u64| #[trigger] b.holders().contains(s) ==> b.tables(s) == a.tables(s)
}

/// Whether `b` is `a` once `table` has been flushed.
pub open spec fn keeps(a: Pins, b: Pins, table: MemTable) -> bool {
    &&& b.flushes() == a.flushes() + 1
    &&& b.holders() == a.holders()
    &&& b.kept() == (if a.holders().len() > 0 {
        seq![(a.flushes(), table)] + a.kept()
    } else {
        Seq::<(u64, MemTable)>::empty()
    })
}

/// Whether `low` is the lowest of these numbers.
pub open spec fn lowest(s: Multiset<u64>, low: u64) -> bool {
    s.contains(low) && forall|x: u64| #[trigger] s.contains(x) ==> low <= x
}

/// A table that is flushed while there are readers is read by all of them before
/// the tables that were flushed earlier.
pub proof fn lemma_kept_first(a: Pins, b: Pins, table: MemTable, since: u64)
    requires
        b.kept() == seq![(a.flushes(), table)] + a.kept(),
        since <= a.flushes(),
    ensures
        b.tables(since) == seq![table] + a.tables(since),
{
    assert(b.kept().drop_first() =~= a.kept());
    assert(b.tables(since) =~= seq![table] + a.tables(since));
}

/// A reader that is registered counts once more, and no table that is kept changes for
/// anyone.
pub proof fn law_pinned(a: Pins, b: Pins, s: u64)
    requires
        pinned(a, b),
    ensures
        b.holders().count(a.flushes()) == a.holders().count(a.flushes()) + 1,
        s != a.flushes() ==> b.holders().count(s) == a.holders().count(s),
        b.flushes() == a.flushes(),
        b.tables(s) == a.tables(s),
{
}

/// A reader whose registration is taken back counts once less, and for all that are
/// left no table that is kept changes.
pub proof fn law_unpinned(a: Pins, b: Pins, since: u64, s: u64)
    requires
        unpinned(a, b, since),
    ensures
        a.holders().count(since) > 0 ==> b.holders().count(since) == a.holders().count(since) - 1,
        s != since ==> b.holders().count(s) == a.holders().count(s),
        b.flushes() == a.flushes(),
        b.holders().count(s) > 0 ==> b.tables(s) == a.tables(s),
{
    if b.holders().count(s) > 0 {
        assert(b.holders().contains(s));
    }
}

/// A table that is flushed is kept, before all others, for everyone who began to read
/// before.
pub proof fn law_kept(a: Pins, b: Pins, table: MemTable, s: u64)
    requires
        keeps(a, b, table),
        a.holders().count(s) > 0,
        s <= a.flushes(),
    ensures
        b.flushes() == a.flushes() + 1,
        b.holders() == a.holders(),
        b.tables(s) == seq![table] + a.tables(s),
{
    if a.holders().len() == 0 {
        assert(a.holders().remove(s).len() < a.holders().len());
    }
    lemma_kept_first(a, b, table, s);
}

} // verus!
