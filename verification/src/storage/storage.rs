//! The tables on disk.

use dashmap::DashMap;

use vstd::prelude::*;
use vstd::string::*;
use vstd::utf8::*;

use crate::common::error::{DbError, DbResult, Fault};
use crate::common::lookup::{Lookup, LookupView};
use crate::common::path;
use crate::common::sort;
use crate::common::sort::sorted_ids;
use crate::common::text;
use crate::common::value::ValueView;
use crate::common::versions;
use crate::common::versions::Entry;
use crate::memtable::MemTable;
use crate::sstable;
use crate::sstable::layout;
use crate::sstable::meta;
use crate::sstable::meta::{MetaView, SSTableMeta};
use crate::sstable::scan::compaction;
use crate::sstable::scan::compaction::KeepFilter;
use crate::sstable::table;
use crate::sstable::table::SSTable;
use crate::sstable::writer::SSTableWriter;
use crate::storage::layers;
use crate::storage::levels;
use crate::storage::levels::{get_level, level_numbers, no_levels, set_level};

verus! {

/// The directory of the tables.
pub const TABLES_DIR: &'static str = "ss";

/// The extension of a file that is being written.
pub const TMP_EXT: &'static str = "tmp";

/// The position of the first `c` in `s`, or its length.
pub open spec fn first_position(s: Seq<char>, c: char) -> int
    decreases s.len(),
{
    if s.len() == 0 {
        0
    } else if s[0] == c {
        0
    } else {
        1 + first_position(s.drop_first(), c)
    }
}

/// The level and the number in the name of a table file, `<level>_<number>`.
#[verifier::opaque]
pub open spec fn named_table(name: Seq<char>) -> Option<(u32, u64)> {
    let i = first_position(name, '_');
    if i >= name.len() {
        None
    } else {
        match (
            text::parsed_number(name.take(i), u32::MAX as nat),
            text::parsed_number(name.skip(i + 1), u64::MAX as nat),
        ) {
            (Some(level), Some(id)) => Some((level as u32, id as u64)),
            _ => None,
        }
    }
}

/// Whether a file is one that was being written when the engine stopped.
pub open spec fn is_stray_name(name: Seq<char>) -> bool {
    let dot = path::last_position(name, '.');
    named_table(name) is None && dot > 0 && name.skip(dot + 1) == TMP_EXT@
}

proof fn lemma_first_position(s: Seq<char>, c: char, i: int)
    requires
        0 <= i <= s.len(),
        forall|j: int| 0 <= j < i ==> s[j] != c,
        i < s.len() ==> s[i] == c,
    ensures
        first_position(s, c) == i,
    decreases s.len(),
{
    if s.len() > 0 && i > 0 {
        assert(s[0] != c);
        lemma_first_position(s.drop_first(), c, i - 1);
    }
}

/// The level and the number in the name of a table file.
pub fn parse_name(filename: &str) -> (r: Option<(u32, u64)>)
    ensures
        r == named_table(filename@),
{
    let chars = text::chars_of(filename);
    let mut i: usize = 0;
    while i < chars.len() && chars[i] != '_'
        invariant
            i <= chars@.len(),
            forall|j: int| 0 <= j < i ==> chars@[j] != '_',
        decreases chars@.len() - i,
    {
        i += 1;
    }
    proof {
        lemma_first_position(filename@, '_', i as int);
        reveal(named_table);
    }
    if i >= chars.len() {
        return None;
    }
    assert(chars@.subrange(0, i as int) =~= filename@.take(i as int));
    assert(chars@.subrange(i + 1, chars@.len() as int) =~= filename@.skip(i + 1));
    let level: Option<u64> = text::parse_chars(&chars, 0, i, u32::MAX as u64);
    let id: Option<u64> = text::parse_chars(&chars, i + 1, chars.len(), u64::MAX);
    match (level, id) {
        (Some(level), Some(id)) => Some((level as u32, id)),
        _ => None,
    }
}

/// Whether a file is one that was being written when the engine stopped, and may
/// be deleted.
pub fn is_stray(filename: &str) -> (r: bool)
    ensures
        r == is_stray_name(filename@),
{
    if parse_name(filename).is_some() {
        return false;
    }
    match path::last_dot(filename) {
        Some(i) => {
            if i == 0 {
                return false;
            }
            let len: usize = filename.unicode_len();
            assert(filename@.subrange(i + 1, len as int) =~= filename@.skip(i + 1));
            text::same(filename.substring_char(i + 1, len), TMP_EXT)
        },
        None => false,
    }
}

/// What a search in tables finds: the first thing that one of them finds.
pub open spec fn disk_get(ts: Seq<SSTable>, user: Seq<char>, snap: u64) -> Result<LookupView, Fault>
    decreases ts.len(),
{
    if ts.len() == 0 {
        Ok(LookupView::Absent)
    } else {
        match table::table_get(ts[0].meta@, ts[0].bytes(), user, snap) {
            Err(f) => Err(f),
            Ok(l) => if l is Absent {
                disk_get(ts.drop_first(), user, snap)
            } else {
                Ok(l)
            },
        }
    }
}

/// The tables of all levels from `level` on, a lower level first.
pub open spec fn slots_from(m: Map<u32, Seq<u64>>, level: int) -> Seq<u64>
    decreases u32::MAX - level + 1,
{
    if level < 0 || level > u32::MAX {
        Seq::empty()
    } else {
        (if m.contains_key(level as u32) {
            m[level as u32]
        } else {
            Seq::empty()
        }) + slots_from(m, level + 1)
    }
}

/// Levels that hold nothing can be passed over.
proof fn lemma_slots_gap(m: Map<u32, Seq<u64>>, from: int, to: int)
    requires
        0 <= from <= to <= u32::MAX + 1,
        forall|l: u32| from <= l < to ==> !m.contains_key(l),
    ensures
        slots_from(m, from) == slots_from(m, to),
    decreases to - from,
{
    if from < to {
        lemma_slots_gap(m, from + 1, to);
        assert(!m.contains_key(from as u32));
        assert(slots_from(m, from) =~= slots_from(m, from + 1));
    }
}

/// What is held at lower levels does not matter.
proof fn lemma_slots_same(a: Map<u32, Seq<u64>>, b: Map<u32, Seq<u64>>, from: int)
    requires
        0 <= from,
        forall|l: u32| from <= l ==> (#[trigger] a.contains_key(l) <==> b.contains_key(l)),
        forall|l: u32| from <= l && #[trigger] a.contains_key(l) ==> a[l] == b[l],
    ensures
        slots_from(a, from) == slots_from(b, from),
    decreases u32::MAX - from + 1,
{
    if from <= u32::MAX {
        lemma_slots_same(a, b, from + 1);
        assert(a.contains_key(from as u32) <==> b.contains_key(from as u32));
    }
}

/// The tables at these places.
pub open spec fn pick(tables: Seq<SSTable>, slots: Seq<u64>) -> Seq<SSTable> {
    Seq::new(slots.len(), |i: int| tables[slots[i] as int])
}

/// The tables on disk, by level. A lower level is newer than a higher one, and
/// within a level the tables stand newest first.
pub struct DiskStorage {
    dir: String,
    id: u64,
    max_seq: u64,
    levels: DashMap<u32, Vec<u64>>,
    tables: Vec<SSTable>,
}

impl DiskStorage {
    /// The directory of the tables.
    pub closed spec fn dir(&self) -> Seq<char> {
        self.dir@
    }

    /// The number of the next table.
    pub closed spec fn next_id(&self) -> u64 {
        self.id
    }

    /// The highest sequence number in the tables that were there at first.
    pub closed spec fn loaded_seq(&self) -> u64 {
        self.max_seq
    }

    spec fn slots(&self) -> Seq<u64> {
        slots_from(levels::levels_of(self.levels), 0)
    }

    /// The tables in the order in which they are searched.
    pub closed spec fn order(&self) -> Seq<SSTable> {
        pick(self.tables@, self.slots())
    }

    /// Number of tables at a level.
    pub closed spec fn count(&self, level: u32) -> nat {
        if levels::levels_of(self.levels).contains_key(level) {
            levels::levels_of(self.levels)[level].len()
        } else {
            0
        }
    }

    /// Every level names tables that are there.
    pub closed spec fn wf(&self) -> bool {
        &&& forall|l: u32, i: int|
            levels::levels_of(self.levels).contains_key(l) && 0 <= i < levels::levels_of(
                self.levels,
            )[l].len() ==> #[trigger] levels::levels_of(self.levels)[l][i] < self.tables@.len()
        &&& forall|i: int| 0 <= i < self.tables@.len() ==> (#[trigger] self.tables@[i]).wf()
    }

    proof fn lemma_slots_bound(&self, from: int)
        requires
            self.wf(),
            0 <= from,
        ensures
            forall|i: int|
                0 <= i < slots_from(levels::levels_of(self.levels), from).len()
                    ==> #[trigger] slots_from(levels::levels_of(self.levels), from)[i]
                    < self.tables@.len(),
        decreases u32::MAX - from + 1,
    {
        let m = levels::levels_of(self.levels);
        if from <= u32::MAX {
            self.lemma_slots_bound(from + 1);
            let s = slots_from(m, from);
            assert forall|i: int| 0 <= i < s.len() implies #[trigger] s[i] < self.tables@.len() by {
                if m.contains_key(from as u32) {
                    if i < m[from as u32].len() {
                        assert(s[i] == m[from as u32][i]);
                    } else {
                        assert(s[i] == slots_from(m, from + 1)[i - m[from as u32].len()]);
                    }
                } else {
                    assert(s[i] == slots_from(m, from + 1)[i]);
                }
            }
        }
    }

    /// The highest sequence number in the tables that were there at first.
    pub fn max_seq(&self) -> (r: u64)
        ensures
            r == self.loaded_seq(),
    {
        self.max_seq
    }

    /// Whether there is a number left for another table.
    pub fn has_room(&self) -> (r: bool)
        ensures
            r == (self.next_id() < u64::MAX),
    {
        self.id < u64::MAX
    }

    /// Whether there are numbers left for `n` more tables and one.
    pub fn has_room_for(&self, n: usize) -> (r: bool)
        ensures
            r == (self.next_id() + n < u64::MAX - 1),
    {
        let left: u64 = u64::MAX - self.id;
        left > 1 && (n as u64) < left - 1
    }

    /// Number of tables at a level.
    pub fn level_len(&self, level: u32) -> (n: usize)
        ensures
            n == self.count(level),
    {
        match get_level(&self.levels, level) {
            Some(v) => v.len(),
            None => 0,
        }
    }

    /// The newest version of `key`.
    pub fn get(&self, key: &str) -> (r: DbResult<Lookup>)
        requires
            self.wf(),
        ensures
            table::answers(r, disk_get(self.order(), key@, u64::MAX)),
    {
        self.get_snap(key, u64::MAX)
    }

    /// The newest version of `key` with a sequence number of at most `snapshot`.
    pub fn get_snap(&self, key: &str, snapshot: u64) -> (r: DbResult<Lookup>)
        requires
            self.wf(),
        ensures
            table::answers(r, disk_get(self.order(), key@, snapshot)),
    {
        let ghost m = levels::levels_of(self.levels);
        let numbers = level_numbers(&self.levels);
        let sorted = sorted_ids(&numbers);
        let mut i: usize = 0;
        let ghost mut from: int = 0;
        while i < sorted.len()
            invariant
                self.wf(),
                m == levels::levels_of(self.levels),
                i <= sorted@.len(),
                sort::ordered(sorted@),
                forall|x: u64| sorted@.contains(x) <==> numbers@.contains(x),
                forall|l: u32|
                    m.contains_key(l) <==> #[trigger] numbers@.contains(l as u64),
                forall|j: int| 0 <= j < numbers@.len() ==> #[trigger] numbers@[j] <= u32::MAX,
                numbers@.no_duplicates(),
                sorted@.to_multiset() == numbers@.to_multiset(),
                0 <= from <= u32::MAX + 1,
                i == 0 ==> from == 0,
                i > 0 ==> from == sorted@[i - 1] + 1,
                disk_get(self.order(), key@, snapshot) == disk_get(
                    pick(self.tables@, slots_from(m, from)),
                    key@,
                    snapshot,
                ),
            decreases sorted@.len() - i,
        {
            let number: u64 = sorted[i];
            proof {
                assert(sorted@.contains(number));
                let x = choose|x: int| 0 <= x < numbers@.len() && numbers@[x] == number;
                assert(numbers@[x] <= u32::MAX);
                lemma_distinct(sorted@, numbers@);
            }
            let level: u32 = number as u32;
            proof {
                assert(numbers@.contains(level as u64));
                assert forall|l: u32| from <= l < level implies !m.contains_key(l) by {
                    if m.contains_key(l) {
                        assert(numbers@.contains(l as u64));
                        assert(sorted@.contains(l as u64));
                        let y = choose|y: int| 0 <= y < sorted@.len() && sorted@[y] == l as u64;
                        if y < i {
                            assert(sorted@[y] <= sorted@[i - 1]);
                        } else {
                            assert(sorted@[i as int] <= sorted@[y]);
                        }
                    }
                }
                if i > 0 {
                    assert(sorted@[i - 1] < sorted@[i as int]);
                }
                lemma_slots_gap(m, from, level as int);
            }
            let slots = match get_level(&self.levels, level) {
                Some(slots) => slots,
                None => {
                    assert(false);
                    i += 1;
                    continue;
                },
            };
            let ghost rest = slots_from(m, level + 1);
            assert(slots_from(m, level as int) =~= slots@ + rest);
            let mut j: usize = 0;
            assert(slots@.skip(0) =~= slots@);
            while j < slots.len()
                invariant
                    self.wf(),
                    m == levels::levels_of(self.levels),
                    m.contains_key(level),
                    slots@ == m[level],
                    j <= slots@.len(),
                    disk_get(self.order(), key@, snapshot) == disk_get(
                        pick(self.tables@, slots@.skip(j as int) + rest),
                        key@,
                        snapshot,
                    ),
                decreases slots@.len() - j,
            {
                let ghost here = pick(self.tables@, slots@.skip(j as int) + rest);
                assert(slots@[j as int] == m[level][j as int]);
                let n: usize = self.tables.len();
                assert(slots@[j as int] < n);
                let at: usize = slots[j] as usize;
                assert(here[0] == self.tables@[at as int]);
                assert(here.drop_first() =~= pick(self.tables@, slots@.skip(j + 1) + rest));
                match self.tables[at].get(key, snapshot) {
                    Err(e) => {
                        return Err(e);
                    },
                    Ok(Lookup::Absent) => {},
                    Ok(lookup) => {
                        return Ok(lookup);
                    },
                }
                j += 1;
            }
            assert(slots@.skip(j as int) + rest =~= rest);
            i += 1;
            proof {
                from = level + 1;
            }
        }
        proof {
            assert forall|l: u32| from <= l < u32::MAX + 1 implies !m.contains_key(l) by {
                if m.contains_key(l) {
                    assert(numbers@.contains(l as u64));
                    assert(sorted@.contains(l as u64));
                    let y = choose|y: int| 0 <= y < sorted@.len() && sorted@[y] == l as u64;
                    assert(sorted@[y] <= sorted@[sorted@.len() - 1]);
                }
            }
            lemma_slots_gap(m, from, u32::MAX + 1);
            assert(pick(self.tables@, slots_from(m, u32::MAX + 1)).len() == 0);
        }
        Ok(Lookup::Absent)
    }
}

/// Ordering numbers of which none occurs twice gives numbers of which none
/// occurs twice.
proof fn lemma_distinct(sorted: Seq<u64>, numbers: Seq<u64>)
    requires
        sort::ordered(sorted),
        numbers.no_duplicates(),
        sorted.to_multiset() == numbers.to_multiset(),
    ensures
        forall|i: int, j: int| 0 <= i < j < sorted.len() ==> sorted[i] < sorted[j],
{
    numbers.lemma_multiset_has_no_duplicates();
    assert(forall|x: u64| numbers.to_multiset().contains(x) ==> numbers.to_multiset().count(x) == 1);
    sorted.lemma_multiset_has_no_duplicates_conv();
}

/// The name of a table file.
pub open spec fn table_name(level: u32, id: u64) -> Seq<char> {
    text::decimal_text(level as nat) + seq!['_'] + text::decimal_text(id as nat)
}

/// The name of a table file.
fn show_name(level: u32, id: u64) -> (r: String)
    ensures
        r@ == table_name(level, id),
{
    let mut s = text::decimal(level as u64);
    proof {
        reveal_strlit("_");
    }
    s.append("_");
    let shown = text::decimal(id);
    s.append(shown.as_str());
    assert(s@ =~= table_name(level, id));
    s
}

/// Writes what readers at or above the watermark need of a table in memory into
/// a table at `path`. Deletion marks stay.
pub fn write_l0(path: &str, mt: &MemTable, read_ts_watermark: u64) -> (r: DbResult<
    Option<(SSTableMeta, Vec<u8>)>,
>)
    requires
        mt.wf(),
    ensures
        sstable::built(
            r,
            path@,
            compaction::kept(None, mt.entries(), false, read_ts_watermark),
        ),
        r matches Err(e) ==> e is InvalidInt,
        versions::are_small(mt.entries()) ==> r is Ok,
{
    let ghost es = mt.entries();
    let ghost ks = compaction::kept(None, es, false, read_ts_watermark);
    proof {
        mt.lemma_entries();
        if versions::are_small(es) {
            law_small_flush_is_written(es, read_ts_watermark);
        }
    }
    let total: usize = mt.len();
    let mut w = SSTableWriter::create(path);
    let mut filter = KeepFilter::new(false, read_ts_watermark);
    let mut it = mt.iter();
    let ghost mut done: Seq<Entry> = Seq::empty();
    assert(done + ks =~= ks);
    proof {
        mt.lemma_entries();
    }
    loop
        invariant_except_break
            done + compaction::kept(
                filter.last(),
                it.rest(),
                filter.drops(),
                filter.line(),
            ) == ks,
        invariant
            it.wf(),
            w.wf(),
            w.target() == path@,
            w@ == layout::written(done),
            layout::accepted(done),
            done.len() + it.rest().len() <= es.len() == total,
            versions::sorted(es),
            ks == compaction::kept(None, es, false, read_ts_watermark),
            es == mt.entries(),
            versions::are_small(es) ==> !unwritable(ks),
        ensures
            done == ks,
        decreases it.rest().len(),
    {
        let ghost rest = it.rest();
        match it.next() {
            None => {
                assert(done + Seq::<Entry>::empty() =~= done);
                break;
            },
            Some((k, v)) => {
                let ghost e = (k@, v@);
                let ghost more = compaction::kept(
                    Some(e.0),
                    it.rest(),
                    filter.drops(),
                    filter.line(),
                );
                if filter.keeps(k, v) {
                    let ghost next = done.push(e);
                    assert(next.drop_last() =~= done);
                    assert(done + (seq![e] + more) =~= next + more);
                    match w.add(k, v) {
                        Err(err) => {
                            proof {
                                lemma_flush_refused(es, read_ts_watermark, done, next, more);
                            }
                            return Err(err);
                        },
                        Ok(_) => {},
                    }
                    proof {
                        done = next;
                    }
                }
            },
        }
    }
    let r = w.finish();
    proof {
        sstable::lemma_built(r, path@, done);
    }
    r
}

/// What a writer refuses of a flush it refuses for its size.
proof fn lemma_flush_refused(
    es: Seq<Entry>,
    watermark: u64,
    done: Seq<Entry>,
    next: Seq<Entry>,
    more: Seq<Entry>,
)
    requires
        versions::sorted(es),
        next + more == compaction::kept(None, es, false, watermark),
        next.len() > 0,
        next.drop_last() == done,
        next.len() <= u64::MAX,
        layout::accepted(done),
        layout::written(done).step(next.last()).1 is Some,
    ensures
        layout::written(done).step(next.last()).1 == Some(crate::sstable::writer::Refusal::Size),
        layout::first_refusal(compaction::kept(None, es, false, watermark)) == Some(
            crate::sstable::writer::Refusal::Size,
        ),
{
    let ks = compaction::kept(None, es, false, watermark);
    versions::lemma_sorted_ascending(es);
    compaction::law_compaction_sorted(es, false, watermark);
    assert(versions::ascending(next)) by {
        assert forall|i: int, j: int| 0 <= i < j < next.len() implies (#[trigger] next[i]).0.le(
            (#[trigger] next[j]).0,
        ) by {
            assert(ks[i] == next[i] && ks[j] == next[j]);
            assert(ks[i].0.lt(ks[j].0));
        }
    }
    layout::lemma_first_refusal(done);
    layout::lemma_order_taken(next);
    assert(ks.take(next.len() as int) =~= next);
    layout::lemma_refused_early(ks, next.len() as int);
}

impl DiskStorage {
    /// Makes the table of level 0 for a table in memory: what readers at or above
    /// the watermark need of it. Returns nothing when that is nothing. The table
    /// is not searched before it is installed.
    pub fn prepare_l0(&mut self, mt: &MemTable, read_ts_watermark: u64) -> (r: DbResult<
        Option<SSTable>,
    >)
        requires
            old(self).wf(),
            mt.wf(),
            old(self).next_id() < u64::MAX,
        ensures
            final(self).wf(),
            final(self).order() == old(self).order(),
            same_levels(*old(self), *final(self)),
            final(self).dir() == old(self).dir(),
            final(self).loaded_seq() == old(self).loaded_seq(),
            final(self).next_id() == old(self).next_id() + 1,
            flushed_table(
                r,
                path::joined(old(self).dir(), table_name(0, old(self).next_id())),
                compaction::kept(None, mt.entries(), false, read_ts_watermark),
            ),
            versions::are_small(mt.entries()) ==> r is Ok,
    {
        let id: u64 = self.id;
        self.id = id + 1;
        let name = show_name(0, id);
        let path = path::join(self.dir.as_str(), name.as_str());
        match write_l0(path.as_str(), mt, read_ts_watermark) {
            Err(e) => Err(e),
            Ok(None) => Ok(None),
            Ok(Some((meta, data))) => Ok(Some(SSTable { data, meta })),
        }
    }

    /// Adds a table to level 0, as its newest one.
    pub fn install_l0(&mut self, table: SSTable)
        requires
            old(self).wf(),
            table.wf(),
        ensures
            final(self).wf(),
            final(self).order() == seq![table] + old(self).order(),
            final(self).dir() == old(self).dir(),
            final(self).loaded_seq() == old(self).loaded_seq(),
            final(self).next_id() == old(self).next_id(),
            one_more_at_l0(*old(self), *final(self)),
    {
        let ghost m = levels::levels_of(self.levels);
        let ghost before = self.tables@;
        let slot: u64 = self.tables.len() as u64;
        let mut slots: Vec<u64> = match get_level(&self.levels, 0) {
            Some(v) => v,
            None => Vec::new(),
        };
        let ghost had = slots@;
        slots.insert(0, slot);
        set_level(&mut self.levels, 0, slots);
        self.tables.push(table);
        proof {
            let n = levels::levels_of(self.levels);
            lemma_slots_same(n, m, 1);
            old(self).lemma_slots_bound(0);
            assert(slots_from(m, 0) =~= had + slots_from(m, 1));
            assert(slots_from(n, 0) =~= seq![slot] + slots_from(m, 0));
            assert forall|l: u32, i: int|
                n.contains_key(l) && 0 <= i < n[l].len() implies #[trigger] n[l][i]
                < self.tables@.len() by {
                if l == 0 {
                    if i > 0 {
                        assert(n[l][i] == had[i - 1]);
                        assert(m.contains_key(l));
                        assert(m[l][i - 1] < before.len());
                    }
                } else {
                    assert(m[l][i] < before.len());
                }
            }
            assert(self.order() =~= seq![table] + old(self).order()) by {
                let old_slots = slots_from(m, 0);
                assert forall|i: int| 0 <= i < old_slots.len() implies self.tables@[(#[trigger]
                old_slots[i]) as int] == before[old_slots[i] as int] by {
                    assert(old_slots[i] < before.len());
                }
            }
        }
    }

    /// Flushes a table in memory to level 0. Returns whether there was anything
    /// to flush.
    pub fn l0(&mut self, mt: &MemTable, read_ts_watermark: u64) -> (r: DbResult<bool>)
        requires
            old(self).wf(),
            mt.wf(),
            old(self).next_id() < u64::MAX,
        ensures
            final(self).wf(),
            final(self).dir() == old(self).dir(),
            final(self).loaded_seq() == old(self).loaded_seq(),
            final(self).next_id() == old(self).next_id() + 1,
            versions::are_small(mt.entries()) ==> r is Ok,
            match r {
                Err(e) => {
                    &&& e is InvalidInt
                    &&& unwritable(
                        compaction::kept(None, mt.entries(), false, read_ts_watermark),
                    )
                    &&& final(self).order() == old(self).order()
                    &&& same_levels(*old(self), *final(self))
                },
                Ok(false) => compaction::kept(
                    None,
                    mt.entries(),
                    false,
                    read_ts_watermark,
                ).len() == 0 && final(self).order() == old(self).order() && same_levels(
                    *old(self),
                    *final(self),
                ),
                Ok(true) => one_more_at_l0(*old(self), *final(self)) && exists|t: SSTable|
                    final(self).order() == #[trigger] (seq![t] + old(self).order())
                        && table::is_table(
                        compaction::kept(None, mt.entries(), false, read_ts_watermark),
                        t.bytes(),
                        t.meta@,
                    ) && t.meta.path@ == path::joined(
                        old(self).dir(),
                        table_name(0, old(self).next_id()),
                    ),
            },
    {
        match self.prepare_l0(mt, read_ts_watermark) {
            Err(e) => Err(e),
            Ok(None) => Ok(false),
            Ok(Some(t)) => {
                let ghost before = self.order();
                self.install_l0(t);
                assert(self.order() == seq![t] + before);
                Ok(true)
            },
        }
    }
}

/// Whether every level has as many tables in `b` as in `a`.
pub open spec fn same_levels(a: DiskStorage, b: DiskStorage) -> bool {
    forall|level: u32| #[trigger] b.count(level) == a.count(level)
}

/// Whether level 0 has one table more in `b` than in `a`, and every other level as
/// many.
pub open spec fn one_more_at_l0(a: DiskStorage, b: DiskStorage) -> bool {
    &&& b.count(0) == a.count(0) + 1
    &&& forall|level: u32| level != 0 ==> #[trigger] b.count(level) == a.count(level)
}

/// Whether `r` is what writing `es` into a table at `path` gives.
pub open spec fn flushed_table(r: DbResult<Option<SSTable>>, path: Seq<char>, es: Seq<Entry>) -> bool {
    match r {
        Ok(None) => es.len() == 0,
        Ok(Some(t)) => {
            &&& table::is_table(es, t.bytes(), t.meta@)
            &&& t.meta.path@ == path
            &&& t.wf()
        },
        Err(e) => e is InvalidInt && unwritable(es),
    }
}

/// Whether entries cannot be written into one table: a text, a block, the filter
/// or the index is too long.
pub open spec fn unwritable(es: Seq<Entry>) -> bool {
    layout::first_refusal(es) is Some || !layout::written(es).closed().describable()
}

/// The names of files.
pub open spec fn file_names(files: Seq<(String, Vec<u8>)>) -> Seq<Seq<char>> {
    Seq::new(files.len(), |i: int| files[i].0@)
}

/// Whether a table of level `a.0` and number `a.1` may be searched before one of
/// level `b.0` and number `b.1`: a lower level comes first, and within a level a
/// higher number.
pub open spec fn no_later(a: (u32, u64), b: (u32, u64)) -> bool {
    a.0 < b.0 || (a.0 == b.0 && a.1 >= b.1)
}

/// Whether `order` lists the places of all table files among these names, in the
/// order in which the tables are searched.
pub open spec fn ranked(names: Seq<Seq<char>>, order: Seq<int>) -> bool {
    &&& order.no_duplicates()
    &&& forall|k: int|
        0 <= k < order.len() ==> 0 <= #[trigger] order[k] < names.len() && named_table(
            names[order[k]],
        ) is Some
    &&& forall|i: int|
        0 <= i < names.len() && named_table(#[trigger] names[i]) is Some ==> order.contains(i)
    &&& forall|a: int, b: int|
        0 <= a < b < order.len() ==> no_later(
            named_table(names[#[trigger] order[a]])->0,
            named_table(names[#[trigger] order[b]])->0,
        )
}

/// Whether `m` is the highest number of a table file among these names, or zero
/// when there is none.
pub open spec fn highest_id(names: Seq<Seq<char>>, m: u64) -> bool {
    &&& forall|i: int|
        0 <= i < names.len() ==> (named_table(#[trigger] names[i]) matches Some(t) ==> t.1 <= m)
    &&& m == 0 || exists|i: int|
        0 <= i < names.len() && (named_table(#[trigger] names[i]) matches Some(t) && t.1 == m)
}

/// The highest sequence number in tables.
pub open spec fn highest_seq(ts: Seq<SSTable>) -> u64
    decreases ts.len(),
{
    if ts.len() == 0 {
        0
    } else {
        let before = highest_seq(ts.drop_last());
        let last = ts.last().meta@.footer.largest_seq;
        if last > before {
            last
        } else {
            before
        }
    }
}

/// How many of these table names are of a level.
pub open spec fn at_level(names: Seq<Seq<char>>, order: Seq<int>, level: u32) -> nat
    decreases order.len(),
{
    if order.len() == 0 {
        0
    } else {
        at_level(names, order.drop_last(), level) + (if named_table(
            names[order.last()],
        ) matches Some(t) && t.0 == level {
            1nat
        } else {
            0nat
        })
    }
}

/// Whether `ts` are the tables of these files, in this order.
pub open spec fn tables_of(
    dir: Seq<char>,
    files: Seq<(String, Vec<u8>)>,
    order: Seq<int>,
    ts: Seq<SSTable>,
) -> bool {
    &&& ts.len() == order.len()
    &&& forall|k: int| 0 <= k < ts.len() ==> is_table_file(dir, files[order[k]], #[trigger] ts[k])
}

/// Whether `t` is the table in a file.
pub open spec fn is_table_file(dir: Seq<char>, file: (String, Vec<u8>), t: SSTable) -> bool {
    &&& t.bytes() == file.1@
    &&& t.meta.path@ == path::joined(dir, file.0@)
    &&& meta::parsed_meta(file.1@) == Ok::<MetaView, Fault>(t.meta@)
}

/// Whether `s` is made from these files.
pub open spec fn loaded(s: DiskStorage, dir: Seq<char>, files: Seq<(String, Vec<u8>)>) -> bool {
    &&& s.wf()
    &&& s.dir() == dir
    &&& highest_id(file_names(files), (s.next_id() - 1) as u64)
    &&& s.next_id() > 0
    &&& s.loaded_seq() == highest_seq(s.order())
    &&& exists|order: Seq<int>|
        {
            &&& #[trigger] ranked(file_names(files), order)
            &&& tables_of(dir, files, order, s.order())
            &&& forall|level: u32|
                #[trigger] s.count(level) == at_level(file_names(files), order, level)
        }
}

/// Whether `order` and `ranks` list the table files among the first `n` names, in
/// the order in which the tables are searched.
spec fn ranked_before(
    names: Seq<Seq<char>>,
    n: int,
    order: Seq<usize>,
    ranks: Seq<(u32, u64)>,
) -> bool {
    &&& ranks.len() == order.len()
    &&& order.no_duplicates()
    &&& forall|k: int|
        0 <= k < order.len() ==> (#[trigger] order[k]) < n && Some(ranks[k]) == named_table(
            names[order[k] as int],
        )
    &&& forall|j: int|
        0 <= j < n && named_table(#[trigger] names[j]) is Some ==> order.contains(j as usize)
    &&& forall|a: int, b: int|
        0 <= a < b < ranks.len() ==> no_later(#[trigger] ranks[a], #[trigger] ranks[b])
}

/// The next table file can be inserted where its rank is.
proof fn lemma_rank_insert(
    names: Seq<Seq<char>>,
    n: int,
    order: Seq<usize>,
    ranks: Seq<(u32, u64)>,
    p: int,
    rank: (u32, u64),
)
    requires
        ranked_before(names, n, order, ranks),
        0 <= n <= usize::MAX,
        0 <= p <= ranks.len(),
        forall|k: int| 0 <= k < p ==> no_later(#[trigger] ranks[k], rank),
        p < ranks.len() ==> !no_later(ranks[p], rank),
        named_table(names[n]) == Some(rank),
    ensures
        ranked_before(names, n + 1, order.insert(p, n as usize), ranks.insert(p, rank)),
{
    let (new_order, new_ranks) = (order.insert(p, n as usize), ranks.insert(p, rank));
    let was = |k: int|
        if k < p {
            k
        } else {
            k - 1
        };
    assert forall|k: int| 0 <= k < new_order.len() && k != p implies #[trigger] new_order[k]
        == order[was(k)] && new_ranks[k] == ranks[was(k)] by {}
    assert forall|k: int| 0 <= k < new_order.len() implies (#[trigger] new_order[k]) < n + 1
        && Some(new_ranks[k]) == named_table(names[new_order[k] as int]) by {
        if k != p {
            assert(order[was(k)] < n);
        }
    }
    assert forall|a: int, b: int|
        0 <= a < new_order.len() && 0 <= b < new_order.len() && a != b implies new_order[a]
        != new_order[b] by {
        if a != p {
            assert(order[was(a)] < n);
        }
        if b != p {
            assert(order[was(b)] < n);
        }
    }
    assert forall|j: int| 0 <= j < n + 1 && named_table(#[trigger] names[j]) is Some implies
        new_order.contains(j as usize) by {
        if j < n {
            assert(order.contains(j as usize));
            let k = choose|k: int| 0 <= k < order.len() && order[k] == j as usize;
            if k < p {
                assert(new_order[k] == j as usize);
            } else {
                assert(new_order[k + 1] == j as usize);
            }
        } else {
            assert(new_order[p] == j as usize);
        }
    }
    assert forall|a: int, b: int| 0 <= a < b < new_ranks.len() implies no_later(
        #[trigger] new_ranks[a],
        #[trigger] new_ranks[b],
    ) by {
        if a != p {
            assert(new_ranks[a] == ranks[was(a)]);
        }
        if b != p {
            assert(new_ranks[b] == ranks[was(b)]);
            if b > p && b - 1 > p {
                assert(no_later(ranks[p], ranks[b - 1]));
            }
        }
    }
}

/// The places of the table files, in the order in which the tables are searched,
/// with their levels and numbers.
fn rank_files(files: &Vec<(String, Vec<u8>)>) -> (r: (Vec<usize>, Vec<(u32, u64)>, u64))
    ensures
        ranked(file_names(files@), r.0@.map_values(|i: usize| i as int)),
        r.1@.len() == r.0@.len(),
        forall|k: int|
            0 <= k < r.0@.len() ==> Some(#[trigger] r.1@[k]) == named_table(
                file_names(files@)[r.0@[k] as int],
            ),
        highest_id(file_names(files@), r.2),
{
    let ghost names = file_names(files@);
    let mut order: Vec<usize> = Vec::new();
    let mut ranks: Vec<(u32, u64)> = Vec::new();
    let mut highest: u64 = 0;
    let mut i: usize = 0;
    while i < files.len()
        invariant
            names == file_names(files@),
            i <= files@.len(),
            ranked_before(names, i as int, order@, ranks@),
            forall|j: int|
                0 <= j < i ==> (named_table(#[trigger] names[j]) matches Some(t) ==> t.1
                    <= highest),
            highest == 0 || exists|j: int|
                0 <= j < i && (named_table(#[trigger] names[j]) matches Some(t) && t.1 == highest),
        decreases files@.len() - i,
    {
        assert(names[i as int] == files@[i as int].0@);
        match parse_name(files[i].0.as_str()) {
            None => {},
            Some((level, id)) => {
                let mut p: usize = 0;
                while p < ranks.len() && (ranks[p].0 < level || (ranks[p].0 == level && ranks[p].1
                    >= id))
                    invariant
                        p <= ranks@.len(),
                        forall|k: int|
                            0 <= k < p ==> no_later(#[trigger] ranks@[k], (level, id)),
                    decreases ranks@.len() - p,
                {
                    p += 1;
                }
                let ghost (old_order, old_ranks) = (order@, ranks@);
                order.insert(p, i);
                ranks.insert(p, (level, id));
                if id > highest {
                    highest = id;
                }
                proof {
                    lemma_rank_insert(names, i as int, old_order, old_ranks, p as int, (level, id));
                }
            },
        }
        i += 1;
    }
    proof {
        let places = order@.map_values(|i: usize| i as int);
        assert forall|k: int| 0 <= k < places.len() implies 0 <= #[trigger] places[k] < names.len()
            && named_table(names[places[k]]) is Some by {
            assert(order@[k] < i);
            assert(Some(ranks@[k]) == named_table(names[order@[k] as int]));
        }
        assert forall|j: int|
            0 <= j < names.len() && named_table(
                #[trigger] names[j],
            ) is Some implies places.contains(j) by {
            let k = choose|k: int| 0 <= k < order@.len() && order@[k] == j as usize;
            assert(places[k] == j);
        }
        assert forall|a: int, b: int| 0 <= a < b < places.len() implies no_later(
            named_table(names[#[trigger] places[a]])->0,
            named_table(names[#[trigger] places[b]])->0,
        ) by {
            assert(Some(ranks@[a]) == named_table(names[order@[a] as int]));
            assert(Some(ranks@[b]) == named_table(names[order@[b] as int]));
            assert(no_later(ranks@[a], ranks@[b]));
        }
    }
    (order, ranks, highest)
}

/// Adding a table to the last level adds it at the end of the search.
proof fn lemma_slots_push(m: Map<u32, Seq<u64>>, level: u32, had: Seq<u64>, x: u64, from: int)
    requires
        0 <= from <= level,
        forall|l: u32| #[trigger] m.contains_key(l) ==> l <= level,
        had == (if m.contains_key(level) {
            m[level]
        } else {
            Seq::empty()
        }),
    ensures
        slots_from(m.insert(level, had.push(x)), from) == slots_from(m, from).push(x),
    decreases level - from,
{
    let n = m.insert(level, had.push(x));
    if from == level {
        lemma_slots_gap(m, level + 1, u32::MAX + 1);
        lemma_slots_gap(n, level + 1, u32::MAX + 1);
        assert(slots_from(m, from) =~= had);
        assert(slots_from(n, from) =~= had.push(x));
    } else {
        lemma_slots_push(m, level, had, x, from + 1);
        assert(slots_from(n, from) =~= slots_from(m, from).push(x));
    }
}

impl DiskStorage {
    /// Opens the tables in the directory `ss` of `dir`, whose files are given by
    /// name and content. Files whose name is not that of a table are left alone.
    pub fn load(dir: &str, files: Vec<(String, Vec<u8>)>) -> (r: DbResult<Self>)
        ensures
            match r {
                Ok(s) => loaded(s, path::joined(dir@, TABLES_DIR@), files@) && !ids_used_up(files@),
                Err(e) => unloadable(e, files@),
            },
    {
        let tables_dir = path::join(dir, TABLES_DIR);
        let (order, ranks, highest) = rank_files(&files);
        let ghost names = file_names(files@);
        let ghost places = order@.map_values(|i: usize| i as int);
        let ghost given = files@;
        assert forall|i: int| 0 <= i < given.len() implies #[trigger] names[i] == given[i].0@ by {}
        if highest == u64::MAX {
            proof {
                let i = choose|i: int|
                    0 <= i < names.len() && (named_table(#[trigger] names[i]) matches Some(t)
                        && t.1 == highest);
                assert(named_table(given[i].0@) is Some);
            }
            return Err(DbError::invalid_state("table numbers are used up"));
        }
        assert(!ids_used_up(given)) by {
            if ids_used_up(given) {
                let i = choose|i: int|
                    0 <= i < given.len() && (named_table((#[trigger] given[i]).0@) matches Some(t)
                        && t.1 == u64::MAX);
                assert(named_table(names[i]) is Some);
            }
        }
        let mut held = files;
        let mut s = DiskStorage {
            dir: tables_dir,
            id: highest + 1,
            max_seq: 0,
            levels: no_levels(),
            tables: Vec::new(),
        };
        let mut k: usize = 0;
        proof {
            assert(!levels::levels_of(s.levels).contains_key(0));
            lemma_slots_gap(levels::levels_of(s.levels), 0, u32::MAX + 1);
            assert(s.slots() =~= Seq::empty());
        }
        while k < order.len()
            invariant
                k <= order@.len(),
                order@.len() == ranks@.len(),
                given == files@,
                !ids_used_up(given),
                names == file_names(given),
                highest < u64::MAX,
                highest_id(names, highest),
                places == order@.map_values(|i: usize| i as int),
                ranked(names, places),
                held@.len() == given.len(),
                forall|j: int|
                    0 <= j < order@.len() ==> Some(#[trigger] ranks@[j]) == named_table(
                        names[order@[j] as int],
                    ),
                forall|j: int|
                    0 <= j < given.len() ==> (#[trigger] held@[j]).0@ == given[j].0@,
                forall|j: int|
                    k <= j < order@.len() ==> held@[#[trigger] order@[j] as int].1@
                        == given[order@[j] as int].1@,
                s.wf(),
                s.dir@ == path::joined(dir@, TABLES_DIR@),
                s.id == highest + 1,
                s.tables@.len() == k,
                tables_of(s.dir@, given, places.take(k as int), s.tables@),
                s.max_seq == highest_seq(s.tables@),
                s.slots() == Seq::new(k as nat, |i: int| i as u64),
                forall|l: u32| #[trigger]
                    levels::levels_of(s.levels).contains_key(l) ==> k > 0 && l <= ranks@[k - 1].0,
                forall|l: u32| #[trigger]
                    s.count(l) == at_level(names, places.take(k as int), l),
            decreases order@.len() - k,
        {
            let at: usize = order[k];
            assert(places[k as int] == at);
            let (level, _) = ranks[k];
            let path = path::join(s.dir.as_str(), held[at].0.as_str());
            let mut data: Vec<u8> = Vec::new();
            let ghost before = held@;
            std::mem::swap(&mut data, &mut held[at].1);
            assert(data@ == given[at as int].1@);
            proof {
                assert forall|j: int| k < j < order@.len() implies held@[#[trigger] order@[j] as int].1@
                    == given[order@[j] as int].1@ by {
                    assert(places[j] == order@[j] && places[k as int] == order@[k as int]);
                    assert(places[j] != places[k as int]);
                    assert(held@[order@[j] as int] == before[order@[j] as int]);
                }
                assert(names[at as int] == given[at as int].0@);
            }
            let table = match SSTable::open(path.as_str(), data) {
                Ok(table) => table,
                Err(e) => {
                    proof {
                        assert(fails(e, meta::parsed_meta(given[at as int].1@)));
                        assert forall|j: int| 0 <= j < k implies meta::parsed_meta(
                            given[#[trigger] places[j]].1@,
                        ) is Ok by {
                            assert(places.take(k as int)[j] == places[j]);
                            assert(is_table_file(s.dir@, given[places[j]], s.tables@[j]));
                        }
                        assert(first_unreadable(given, places, k as int));
                    }
                    return Err(e);
                },
            };
            let ghost old_s = s;
            let ghost m = levels::levels_of(s.levels);
            let largest: u64 = table.meta.largest_seq();
            if largest > s.max_seq {
                s.max_seq = largest;
            }
            let mut slots: Vec<u64> = match get_level(&s.levels, level) {
                Some(v) => v,
                None => Vec::new(),
            };
            let ghost had = slots@;
            slots.push(k as u64);
            set_level(&mut s.levels, level, slots);
            s.tables.push(table);
            proof {
                if k > 0 {
                    assert(no_later(ranks@[k - 1], ranks@[k as int])) by {
                        assert(places[k - 1] == order@[k - 1] && places[k as int] == order@[k as int]);
                        assert(Some(ranks@[k - 1]) == named_table(names[order@[k - 1] as int]));
                        assert(no_later(
                            named_table(names[places[k - 1]])->0,
                            named_table(names[places[k as int]])->0,
                        ));
                    }
                }
                let n = levels::levels_of(s.levels);
                assert(n == m.insert(level, had.push(k as u64)));
                lemma_slots_push(m, level, had, k as u64, 0);
                assert(s.slots() =~= Seq::new((k + 1) as nat, |i: int| i as u64));
                assert forall|l: u32, i: int|
                    n.contains_key(l) && 0 <= i < n[l].len() implies #[trigger] n[l][i]
                    < s.tables@.len() by {
                    if l == level {
                        if i < had.len() {
                            assert(n[l][i] == m[l][i]);
                        }
                    } else {
                        assert(n[l][i] == m[l][i]);
                    }
                }
                let next = places.take(k + 1);
                assert(next.drop_last() =~= places.take(k as int));
                assert(next.last() == at as int);
                assert(s.tables@.drop_last() =~= old_s.tables@);
                assert forall|j: int| 0 <= j < s.tables@.len() implies is_table_file(
                    s.dir@,
                    given[next[j]],
                    #[trigger] s.tables@[j],
                ) by {
                    if j < k {
                        assert(s.tables@[j] == old_s.tables@[j]);
                        assert(next[j] == places.take(k as int)[j]);
                    }
                }
                assert forall|l: u32| #[trigger] s.count(l) == at_level(names, next, l) by {
                    assert(old_s.count(l) == at_level(names, places.take(k as int), l));
                }
            }
            k += 1;
        }
        proof {
            assert(places.take(k as int) =~= places);
            assert(s.order() =~= s.tables@);
        }
        Ok(s)
    }
}

/// Whether a table file has the highest number there is.
pub open spec fn ids_used_up(files: Seq<(String, Vec<u8>)>) -> bool {
    exists|i: int|
        0 <= i < files.len() && (named_table((#[trigger] files[i]).0@) matches Some(t) && t.1
            == u64::MAX)
}

/// Whether `e` reports why these files cannot be loaded: there is no number left
/// for another table, or a table cannot be read, and it is the first of these in the
/// order of the search. Only names with the same level and number leave open which
/// of their tables comes first.
pub open spec fn unloadable(e: DbError, files: Seq<(String, Vec<u8>)>) -> bool {
    if ids_used_up(files) {
        e.is_state("table numbers are used up"@)
    } else {
        exists|order: Seq<int>, k: int| #[trigger]
            ranked(file_names(files), order) && #[trigger] first_unreadable(files, order, k)
                && fails(e, meta::parsed_meta(files[order[k]].1@))
    }
}

/// Whether the table at the place `order[k]` is the first in this order that cannot
/// be read.
pub open spec fn first_unreadable(files: Seq<(String, Vec<u8>)>, order: Seq<int>, k: int) -> bool {
    &&& 0 <= k < order.len()
    &&& meta::parsed_meta(files[order[k]].1@) is Err
    &&& forall|j: int| 0 <= j < k ==> meta::parsed_meta(files[#[trigger] order[j]].1@) is Ok
}

/// Whether `e` reports the fault in `o`.
pub open spec fn fails(e: DbError, o: Result<MetaView, Fault>) -> bool {
    o matches Err(f) && e.reports(f)
}

/// The name of a table file tells its level and its number.
pub proof fn law_table_name_round_trip(level: u32, id: u64)
    ensures
        named_table(table_name(level, id)) == Some((level, id)),
{
    reveal(named_table);
    let (a, b) = (text::decimal_text(level as nat), text::decimal_text(id as nat));
    let name = table_name(level, id);
    text::lemma_decimal_digits(level as nat);
    assert forall|j: int| 0 <= j < a.len() implies name[j] != '_' by {
        assert(name[j] == a[j] && '0' <= a[j] <= '9');
    }
    lemma_first_position(name, '_', a.len() as int);
    assert(name.take(a.len() as int) =~= a);
    assert(name.skip(a.len() as int + 1) =~= b);
    text::law_decimal_round_trip(level as nat, u32::MAX as nat);
    text::law_decimal_round_trip(id as nat, u64::MAX as nat);
}

/// Whether no two of these table files have the same level and number.
pub open spec fn ranks_differ(names: Seq<Seq<char>>) -> bool {
    forall|i: int, j: int|
        0 <= i < j < names.len() && named_table(#[trigger] names[i]) is Some
            ==> named_table(names[i]) != named_table(#[trigger] names[j])
}

/// Two enumerations of the same places in the order of the search are the same.
proof fn lemma_ranked_unique(names: Seq<Seq<char>>, p: Seq<int>, q: Seq<int>)
    requires
        ranks_differ(names),
        in_order(names, p),
        in_order(names, q),
        forall|x: int| p.contains(x) <==> q.contains(x),
    ensures
        p == q,
    decreases p.len(),
{
    if p.len() == 0 {
        if q.len() > 0 {
            assert(q.contains(q[0]));
        }
        assert(p =~= q);
    } else {
        assert(p.contains(p[0]));
        assert(q.len() > 0);
        assert(q.contains(q[0]));
        let j = choose|j: int| 0 <= j < q.len() && q[j] == p[0];
        let i = choose|i: int| 0 <= i < p.len() && p[i] == q[0];
        if p[0] != q[0] {
            assert(no_later(named_table(names[p[0]])->0, named_table(names[p[i]])->0));
            assert(no_later(named_table(names[q[0]])->0, named_table(names[q[j]])->0));
            let (x, y) = (p[0], q[0]);
            if x < y {
                assert(named_table(names[x]) != named_table(names[y]));
            } else {
                assert(named_table(names[y]) != named_table(names[x]));
            }
            assert(false);
        }
        let (ps, qs) = (p.drop_first(), q.drop_first());
        assert forall|x: int| ps.contains(x) <==> qs.contains(x) by {
            if ps.contains(x) {
                let a = choose|a: int| 0 <= a < ps.len() && ps[a] == x;
                assert(p[a + 1] == x && p[0] != x);
                assert(p.contains(x));
                let b = choose|b: int| 0 <= b < q.len() && q[b] == x;
                assert(qs[b - 1] == x);
            }
            if qs.contains(x) {
                let a = choose|a: int| 0 <= a < qs.len() && qs[a] == x;
                assert(q[a + 1] == x && q[0] != x);
                assert(q.contains(x));
                let b = choose|b: int| 0 <= b < p.len() && p[b] == x;
                assert(ps[b - 1] == x);
            }
        }
        lemma_in_order_rest(names, p);
        lemma_in_order_rest(names, q);
        lemma_ranked_unique(names, ps, qs);
        assert(p =~= seq![p[0]] + ps);
        assert(q =~= seq![q[0]] + qs);
    }
}

/// Whether these places are of table files, differ, and stand in the order of the
/// search.
pub open spec fn in_order(names: Seq<Seq<char>>, p: Seq<int>) -> bool {
    &&& p.no_duplicates()
    &&& forall|k: int|
        0 <= k < p.len() ==> 0 <= #[trigger] p[k] < names.len() && named_table(names[p[k]]) is Some
    &&& forall|a: int, b: int|
        0 <= a < b < p.len() ==> no_later(
            named_table(names[#[trigger] p[a]])->0,
            named_table(names[#[trigger] p[b]])->0,
        )
}

proof fn lemma_in_order_rest(names: Seq<Seq<char>>, p: Seq<int>)
    requires
        in_order(names, p),
        p.len() > 0,
    ensures
        in_order(names, p.drop_first()),
{
    let ps = p.drop_first();
    assert forall|k: int| 0 <= k < ps.len() implies 0 <= #[trigger] ps[k] < names.len()
        && named_table(names[ps[k]]) is Some by {
        assert(ps[k] == p[k + 1]);
    }
    assert forall|a: int, b: int| 0 <= a < b < ps.len() implies no_later(
        named_table(names[#[trigger] ps[a]])->0,
        named_table(names[#[trigger] ps[b]])->0,
    ) by {
        assert(ps[a] == p[a + 1] && ps[b] == p[b + 1]);
    }
}

/// Table files of which no two have the same level and number are searched in one
/// order only.
proof fn lemma_one_order(names: Seq<Seq<char>>, p: Seq<int>, q: Seq<int>)
    requires
        ranks_differ(names),
        ranked(names, p),
        ranked(names, q),
    ensures
        p == q,
{
    assert forall|x: int| p.contains(x) <==> q.contains(x) by {
        if p.contains(x) {
            let a = choose|a: int| 0 <= a < p.len() && p[a] == x;
            assert(0 <= p[a] < names.len());
        }
        if q.contains(x) {
            let a = choose|a: int| 0 <= a < q.len() && q[a] == x;
            assert(0 <= q[a] < names.len());
        }
    }
    lemma_ranked_unique(names, p, q);
}

/// When no two table files have the same level and number, the table whose fault is
/// reported is one and the same in whatever order the directory lists the files.
pub proof fn law_one_table_is_reported(
    files: Seq<(String, Vec<u8>)>,
    p: Seq<int>,
    i: int,
    q: Seq<int>,
    j: int,
)
    requires
        ranks_differ(file_names(files)),
        ranked(file_names(files), p),
        ranked(file_names(files), q),
        first_unreadable(files, p, i),
        first_unreadable(files, q, j),
    ensures
        p[i] == q[j],
{
    lemma_one_order(file_names(files), p, q);
    if i < j {
        assert(meta::parsed_meta(files[q[i]].1@) is Ok);
    } else if j < i {
        assert(meta::parsed_meta(files[p[j]].1@) is Ok);
    }
}

/// What is loaded opens each table from its file, and where there is no table file it
/// holds no table.
pub proof fn law_loaded_tables(s: DiskStorage, dir: Seq<char>, files: Seq<(String, Vec<u8>)>)
    requires
        loaded(s, dir, files),
    ensures
        forall|i: int|
            0 <= i < s.order().len() ==> meta::parsed_meta((#[trigger] s.order()[i]).bytes())
                == Ok::<MetaView, Fault>(s.order()[i].meta@),
        (forall|i: int| 0 <= i < files.len() ==> named_table((#[trigger] files[i]).0@) is None)
            ==> s.order().len() == 0,
{
    let names = file_names(files);
    let order = choose|order: Seq<int>|
        {
            &&& #[trigger] ranked(names, order)
            &&& tables_of(dir, files, order, s.order())
            &&& forall|level: u32| #[trigger] s.count(level) == at_level(names, order, level)
        };
    assert forall|i: int| 0 <= i < s.order().len() implies meta::parsed_meta(
        (#[trigger] s.order()[i]).bytes(),
    ) == Ok::<MetaView, Fault>(s.order()[i].meta@) by {
        assert(is_table_file(dir, files[order[i]], s.order()[i]));
    }
    if order.len() > 0 {
        assert(0 <= order[0] < names.len());
        assert(names[order[0]] == files[order[0]].0@);
    }
}

/// Tables that are loaded again from their files are searched in the same order,
/// in whatever order the directory lists the files: `order` gives for each table
/// the place of its file.
pub proof fn law_reload(
    s: DiskStorage,
    dir: Seq<char>,
    files: Seq<(String, Vec<u8>)>,
    ts: Seq<SSTable>,
    order: Seq<int>,
)
    requires
        loaded(s, dir, files),
        ranked(file_names(files), order),
        ranks_differ(file_names(files)),
        ts.len() == order.len(),
        forall|i: int| 0 <= i < ts.len() ==> (#[trigger] ts[i]).bytes() == files[order[i]].1@,
    ensures
        layers::same_files(ts, s.order()),
{
    let names = file_names(files);
    let q = choose|q: Seq<int>|
        {
            &&& #[trigger] ranked(names, q)
            &&& tables_of(dir, files, q, s.order())
            &&& forall|level: u32| #[trigger] s.count(level) == at_level(names, q, level)
        };
    lemma_one_order(names, order, q);
    assert forall|i: int| 0 <= i < ts.len() implies (#[trigger] s.order()[i]).bytes()
        == ts[i].bytes() by {
        assert(is_table_file(dir, files[q[i]], s.order()[i]));
    }
}

/// What is flushed of a table in memory whose entries are small can be written.
pub proof fn law_small_flush_is_written(es: Seq<Entry>, watermark: u64)
    requires
        versions::sorted(es),
        2 * versions::volume(es) <= 0xFFFF_FFFF,
        forall|i: int|
            0 <= i < es.len() ==> 4096 + 12 + encode_utf8((#[trigger] es[i]).0.user).len() + (
            match es[i].1 {
                ValueView::Put(s) => encode_utf8(s).len(),
                ValueView::Delete => 0,
            }) <= 65535,
    ensures
        !unwritable(compaction::kept(None, es, false, watermark)),
{
    let ks = compaction::kept(None, es, false, watermark);
    versions::lemma_sorted_ascending(es);
    compaction::law_compaction_sorted(es, false, watermark);
    compaction::lemma_kept_volume(None, es, false, watermark);
    assert forall|x: int| 0 <= x < ks.len() implies 4096 + 12 + encode_utf8(
        (#[trigger] ks[x]).0.user,
    ).len() + (match ks[x].1 {
        ValueView::Put(s) => encode_utf8(s).len(),
        ValueView::Delete => 0,
    }) <= 65535 by {
        assert(es.contains(ks[x]));
        let i = choose|i: int| 0 <= i < es.len() && es[i] == ks[x];
        assert(es[i] == ks[x]);
    }
    layout::law_small_tables_are_built(ks);
}

/// The highest sequence number in tables is that of one of them, or zero, and that of
/// none is above it.
proof fn lemma_highest_seq_bounds(ts: Seq<SSTable>)
    ensures
        forall|i: int|
            0 <= i < ts.len() ==> (#[trigger] ts[i]).meta@.footer.largest_seq <= highest_seq(ts),
        highest_seq(ts) == 0 || exists|i: int|
            0 <= i < ts.len() && (#[trigger] ts[i]).meta@.footer.largest_seq == highest_seq(ts),
    decreases ts.len(),
{
    if ts.len() > 0 {
        let prev = ts.drop_last();
        lemma_highest_seq_bounds(prev);
        assert forall|i: int| 0 <= i < ts.len() implies (
        #[trigger] ts[i]).meta@.footer.largest_seq <= highest_seq(ts) by {
            if i < prev.len() {
                assert(prev[i] == ts[i]);
            }
        }
        if highest_seq(ts) != 0 {
            if ts.last().meta@.footer.largest_seq > highest_seq(prev) {
                assert(ts[ts.len() - 1].meta@.footer.largest_seq == highest_seq(ts));
            } else {
                let i = choose|i: int|
                    0 <= i < prev.len() && (#[trigger] prev[i]).meta@.footer.largest_seq
                        == highest_seq(prev);
                assert(ts[i].meta@.footer.largest_seq == highest_seq(ts));
            }
        }
    }
}

/// The highest sequence number that is loaded is that in the footer of one of the table
/// files, or zero, and that of none of them is above it.
pub proof fn law_loaded_sequence(s: DiskStorage, dir: Seq<char>, files: Seq<(String, Vec<u8>)>)
    requires
        loaded(s, dir, files),
    ensures
        forall|i: int|
            0 <= i < files.len() && named_table((#[trigger] files[i]).0@) is Some ==> (
            meta::parsed_meta(files[i].1@) matches Ok(m) && m.footer.largest_seq
                <= s.loaded_seq()),
        s.loaded_seq() == 0 || exists|i: int|
            0 <= i < files.len() && named_table((#[trigger] files[i]).0@) is Some && (
            meta::parsed_meta(files[i].1@) matches Ok(m) && m.footer.largest_seq
                == s.loaded_seq()),
{
    let names = file_names(files);
    let ts = s.order();
    let order = choose|order: Seq<int>|
        {
            &&& #[trigger] ranked(names, order)
            &&& tables_of(dir, files, order, ts)
            &&& forall|level: u32| #[trigger] s.count(level) == at_level(names, order, level)
        };
    lemma_highest_seq_bounds(ts);
    assert forall|i: int|
        0 <= i < files.len() && named_table((#[trigger] files[i]).0@) is Some implies (
    meta::parsed_meta(files[i].1@) matches Ok(m) && m.footer.largest_seq <= s.loaded_seq()) by {
        assert(names[i] == files[i].0@);
        assert(order.contains(i));
        let k = choose|k: int| 0 <= k < order.len() && order[k] == i;
        assert(is_table_file(dir, files[order[k]], ts[k]));
    }
    if s.loaded_seq() != 0 {
        let k = choose|k: int|
            0 <= k < ts.len() && (#[trigger] ts[k]).meta@.footer.largest_seq == highest_seq(ts);
        assert(is_table_file(dir, files[order[k]], ts[k]));
        let i = order[k];
        assert(0 <= i < names.len() && named_table(names[i]) is Some);
        assert(names[i] == files[i].0@);
        assert(named_table(files[i].0@) is Some);
    }
}

/// Table files of which each can be read and none has the highest number there is can
/// be loaded.
pub proof fn law_readable_tables_are_loaded(e: DbError, files: Seq<(String, Vec<u8>)>)
    requires
        forall|i: int|
            0 <= i < files.len() ==> (named_table((#[trigger] files[i]).0@) matches Some(t) ==> t.1
                < 0xFFFF_FFFF_FFFF_FFFF && meta::parsed_meta(files[i].1@) is Ok),
    ensures
        !unloadable(e, files),
{
    if unloadable(e, files) {
        if ids_used_up(files) {
            let i = choose|i: int|
                0 <= i < files.len() && (named_table((#[trigger] files[i]).0@) matches Some(t)
                    && t.1 == u64::MAX);
            assert(named_table(files[i].0@) is Some);
        } else {
            let (order, k) = choose|order: Seq<int>, k: int| #[trigger]
                ranked(file_names(files), order) && #[trigger] first_unreadable(files, order, k)
                    && fails(e, meta::parsed_meta(files[order[k]].1@));
            let i = order[k];
            assert(0 <= i < file_names(files).len() && named_table(file_names(files)[i]) is Some);
            assert(file_names(files)[i] == files[i].0@);
            assert(named_table(files[i].0@) is Some);
        }
    }
}

/// In which order the tables that are loaded are searched: each table file has one place
/// in it, a lower level comes before a higher one, and within a level a higher number
/// before a lower one. The next table gets a number above all of them.
pub proof fn law_load_order(s: DiskStorage, dir: Seq<char>, files: Seq<(String, Vec<u8>)>)
    requires
        loaded(s, dir, files),
    ensures
        exists|order: Seq<int>|
            {
                &&& #[trigger] order.no_duplicates()
                &&& order.len() == s.order().len()
                &&& forall|i: int|
                    0 <= i < files.len() && named_table((#[trigger] files[i]).0@) is Some
                        ==> order.contains(i)
                &&& forall|k: int|
                    0 <= k < order.len() ==> 0 <= #[trigger] order[k] < files.len() && named_table(
                        files[order[k]].0@,
                    ) is Some && s.order()[k].bytes() == files[order[k]].1@
                &&& forall|a: int, b: int|
                    0 <= a < b < order.len() ==> {
                        let x = named_table(files[#[trigger] order[a]].0@)->0;
                        let y = named_table(files[#[trigger] order[b]].0@)->0;
                        x.0 < y.0 || (x.0 == y.0 && x.1 >= y.1)
                    }
            },
        forall|i: int|
            0 <= i < files.len() ==> (named_table((#[trigger] files[i]).0@) matches Some(t) ==> t.1
                < s.next_id()),
{
    let names = file_names(files);
    let order = choose|order: Seq<int>|
        {
            &&& #[trigger] ranked(names, order)
            &&& tables_of(dir, files, order, s.order())
            &&& forall|level: u32| #[trigger] s.count(level) == at_level(names, order, level)
        };
    assert forall|i: int| 0 <= i < files.len() implies #[trigger] names[i] == files[i].0@ by {}
    assert forall|k: int| 0 <= k < order.len() implies 0 <= #[trigger] order[k] < files.len()
        && named_table(files[order[k]].0@) is Some && s.order()[k].bytes()
        == files[order[k]].1@ by {
        assert(is_table_file(dir, files[order[k]], s.order()[k]));
        assert(names[order[k]] == files[order[k]].0@);
    }
    assert forall|i: int|
        0 <= i < files.len() && named_table((#[trigger] files[i]).0@) is Some implies
        order.contains(i) by {
        assert(names[i] == files[i].0@);
    }
    assert forall|a: int, b: int| 0 <= a < b < order.len() implies {
        let x = named_table(files[#[trigger] order[a]].0@)->0;
        let y = named_table(files[#[trigger] order[b]].0@)->0;
        x.0 < y.0 || (x.0 == y.0 && x.1 >= y.1)
    } by {
        assert(names[order[a]] == files[order[a]].0@ && names[order[b]] == files[order[b]].0@);
        assert(no_later(named_table(names[order[a]])->0, named_table(names[order[b]])->0));
    }
    assert(order.no_duplicates());
    assert forall|i: int| 0 <= i < files.len() implies (named_table(
        (#[trigger] files[i]).0@,
    ) matches Some(t) ==> t.1 < s.next_id()) by {
        assert(names[i] == files[i].0@);
    }
}

/// A table that is flushed is searched first when the tables are loaded again, and the
/// others behind it as before: its name gives it level zero and a number above all
/// others.
pub proof fn law_flushed_table_is_searched_first(
    s: DiskStorage,
    again: DiskStorage,
    dir: Seq<char>,
    files: Seq<(String, Vec<u8>)>,
    file: (String, Vec<u8>),
)
    requires
        loaded(s, dir, files),
        ranks_differ(file_names(files)),
        file.0@ == table_name(0, s.next_id()),
        loaded(again, dir, files.push(file)),
    ensures
        again.order().len() == s.order().len() + 1,
        again.order()[0].bytes() == file.1@,
        forall|i: int|
            0 <= i < s.order().len() ==> (#[trigger] again.order()[i + 1]).bytes()
                == s.order()[i].bytes(),
{
    let (names, all) = (file_names(files), files.push(file));
    let (new, n) = (file_names(all), files.len() as int);
    let rank = (0u32, s.next_id());
    law_table_name_round_trip(0, s.next_id());
    let order = choose|order: Seq<int>|
        {
            &&& #[trigger] ranked(names, order)
            &&& tables_of(dir, files, order, s.order())
            &&& forall|level: u32| #[trigger] s.count(level) == at_level(names, order, level)
        };
    let next = seq![n] + order;
    assert forall|i: int| 0 <= i < n implies #[trigger] new[i] == names[i] by {}
    assert(new[n] == file.0@);
    assert forall|k: int| 0 <= k < next.len() implies 0 <= #[trigger] next[k] < new.len()
        && named_table(new[next[k]]) is Some by {
        if k > 0 {
            assert(next[k] == order[k - 1]);
        }
    }
    assert forall|a: int, b: int| 0 <= a < next.len() && 0 <= b < next.len() && a != b implies
        next[a] != next[b] by {
        if a > 0 {
            assert(0 <= order[a - 1] < n);
        }
        if b > 0 {
            assert(0 <= order[b - 1] < n);
        }
    }
    assert forall|i: int| 0 <= i < new.len() && named_table(#[trigger] new[i]) is Some implies
        next.contains(i) by {
        if i < n {
            assert(named_table(names[i]) is Some);
            let k = choose|k: int| 0 <= k < order.len() && order[k] == i;
            assert(next[k + 1] == i);
        } else {
            assert(next[0] == i);
        }
    }
    assert forall|a: int, b: int| 0 <= a < b < next.len() implies no_later(
        named_table(new[#[trigger] next[a]])->0,
        named_table(new[#[trigger] next[b]])->0,
    ) by {
        let y = order[b - 1];
        assert(next[b] == y && 0 <= y < n);
        assert(named_table(names[y]) is Some);
        if a > 0 {
            assert(next[a] == order[a - 1] && 0 <= order[a - 1] < n);
            assert(no_later(named_table(names[order[a - 1]])->0, named_table(names[y])->0));
        }
    }
    assert(ranked(new, next));
    assert forall|i: int, j: int|
        0 <= i < j < new.len() && named_table(#[trigger] new[i]) is Some implies named_table(new[i])
        != named_table(#[trigger] new[j]) by {
        if j < n {
            assert(named_table(names[i]) != named_table(names[j]));
        } else {
            assert(named_table(names[i]) is Some);
        }
    }
    let q = choose|q: Seq<int>|
        {
            &&& #[trigger] ranked(new, q)
            &&& tables_of(dir, all, q, again.order())
            &&& forall|level: u32| #[trigger] again.count(level) == at_level(new, q, level)
        };
    lemma_one_order(new, next, q);
    assert(is_table_file(dir, all[q[0]], again.order()[0]));
    assert forall|i: int| 0 <= i < s.order().len() implies (
    #[trigger] again.order()[i + 1]).bytes() == s.order()[i].bytes() by {
        assert(is_table_file(dir, all[q[i + 1]], again.order()[i + 1]));
        assert(is_table_file(dir, files[order[i]], s.order()[i]));
        assert(q[i + 1] == order[i] && 0 <= order[i] < n);
        assert(all[order[i]] == files[order[i]]);
    }
}

/// A table file is never taken for one that was being written, and a file whose name
/// ends in `.tmp` behind something else always is.
pub proof fn law_stray_files(name: Seq<char>, level: u32, id: u64)
    ensures
        !is_stray_name(table_name(level, id)),
        named_table(name) is Some ==> !is_stray_name(name),
        name.len() > 0 ==> is_stray_name(name + seq!['.', 't', 'm', 'p']),
{
    law_table_name_round_trip(level, id);
    if name.len() > 0 {
        let tmp = seq!['t', 'm', 'p'];
        let front = name.push('.');
        let all = name + seq!['.', 't', 'm', 'p'];
        reveal_strlit("tmp");
        assert(TMP_EXT@ =~= tmp);
        assert(all =~= front + tmp);
        assert(path::last_position(all, '.') == name.len()) by {
            reveal_with_fuel(path::last_position, 5);
            assert(all.drop_last().drop_last().drop_last() =~= front);
        }
        assert(all.skip(name.len() as int + 1) =~= tmp);
        reveal(named_table);
        let i = first_position(all, '_');
        if 0 <= i < all.len() {
            let digits = text::unsigned_digits(all.skip(i + 1));
            if digits.len() > 0 {
                assert(digits.last() == 'p');
                assert(digits[digits.len() - 1] == 'p');
            }
        }
        lemma_first_position_bounds(all, '_');
    }
}

/// The first position is within a text or at its end.
proof fn lemma_first_position_bounds(s: Seq<char>, c: char)
    ensures
        0 <= first_position(s, c) <= s.len(),
        first_position(s, c) < s.len() ==> s[first_position(s, c)] == c,
    decreases s.len(),
{
    if s.len() > 0 && s[0] != c {
        lemma_first_position_bounds(s.drop_first(), c);
    }
}

/// A search in tables goes on behind a table only where that has nothing under the key:
/// what it finds, or why it cannot be searched, is the outcome.
pub proof fn law_search_passes_over_nothing(ts: Seq<SSTable>, user: Seq<char>, snap: u64, i: int)
    requires
        0 <= i < ts.len(),
        forall|j: int|
            0 <= j < i ==> table::table_get(
                (#[trigger] ts[j]).meta@,
                ts[j].bytes(),
                user,
                snap,
            ) == Ok::<LookupView, Fault>(LookupView::Absent),
        table::table_get(ts[i].meta@, ts[i].bytes(), user, snap) != Ok::<LookupView, Fault>(
            LookupView::Absent,
        ),
    ensures
        disk_get(ts, user, snap) == table::table_get(ts[i].meta@, ts[i].bytes(), user, snap),
    decreases ts.len(),
{
    if i > 0 {
        let rest = ts.drop_first();
        assert(table::table_get(ts[0].meta@, ts[0].bytes(), user, snap) == Ok::<LookupView, Fault>(
            LookupView::Absent,
        ));
        assert forall|j: int| 0 <= j < i - 1 implies table::table_get(
            (#[trigger] rest[j]).meta@,
            rest[j].bytes(),
            user,
            snap,
        ) == Ok::<LookupView, Fault>(LookupView::Absent) by {
            assert(rest[j] == ts[j + 1]);
        }
        law_search_passes_over_nothing(rest, user, snap, i - 1);
    }
}

/// How many of the first names are of a level grows by one with each that is.
proof fn lemma_at_level(names: Seq<Seq<char>>, order: Seq<int>, level: u32)
    ensures
        at_level(names, order, level) <= order.len(),
        at_level(names, order, level) == 0 <==> forall|k: int|
            0 <= k < order.len() ==> !(named_table(names[#[trigger] order[k]]) matches Some(t)
                && t.0 == level),
    decreases order.len(),
{
    if order.len() > 0 {
        let prev = order.drop_last();
        lemma_at_level(names, prev, level);
        let last = order.len() - 1;
        assert(order[last] == order.last());
        if at_level(names, order, level) == 0 {
            assert forall|k: int| 0 <= k < order.len() implies !(named_table(
                names[#[trigger] order[k]],
            ) matches Some(t) && t.0 == level) by {
                if k < last {
                    assert(prev[k] == order[k]);
                }
            }
        } else if at_level(names, prev, level) > 0 {
            let k = choose|k: int|
                0 <= k < prev.len() && (named_table(names[#[trigger] prev[k]]) matches Some(t)
                    && t.0 == level);
            assert(order[k] == prev[k]);
        }
    }
}

/// A level holds tables exactly when some table file is of that level.
pub proof fn law_levels_hold_their_files(
    s: DiskStorage,
    dir: Seq<char>,
    files: Seq<(String, Vec<u8>)>,
    level: u32,
)
    requires
        loaded(s, dir, files),
    ensures
        s.count(level) > 0 <==> exists|i: int|
            0 <= i < files.len() && (named_table((#[trigger] files[i]).0@) matches Some(t) && t.0
                == level),
{
    let names = file_names(files);
    let order = choose|order: Seq<int>|
        {
            &&& #[trigger] ranked(names, order)
            &&& tables_of(dir, files, order, s.order())
            &&& forall|level: u32| #[trigger] s.count(level) == at_level(names, order, level)
        };
    lemma_at_level(names, order, level);
    assert forall|i: int| 0 <= i < files.len() implies #[trigger] names[i] == files[i].0@ by {}
    if s.count(level) > 0 {
        let k = choose|k: int|
            0 <= k < order.len() && (named_table(names[#[trigger] order[k]]) matches Some(t) && t.0
                == level);
        assert(0 <= order[k] < names.len());
        assert(named_table(files[order[k]].0@) is Some);
    }
    if exists|i: int|
        0 <= i < files.len() && (named_table((#[trigger] files[i]).0@) matches Some(t) && t.0
            == level) {
        let i = choose|i: int|
            0 <= i < files.len() && (named_table((#[trigger] files[i]).0@) matches Some(t) && t.0
                == level);
        assert(named_table(names[i]) is Some);
        let k = choose|k: int| 0 <= k < order.len() && order[k] == i;
        assert(names[order[k]] == files[i].0@);
    }
}

} // verus!
