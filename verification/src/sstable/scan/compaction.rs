//! Dropping the versions that no reader needs.

use vstd::prelude::*;

use crate::common::error::{DbResult, Fault};
use crate::common::key;
use crate::common::key::{Key, KeyView};
use crate::common::text;
use crate::common::value::{Value, ValueView};
use crate::common::versions;
use crate::common::versions::Entry;
use crate::sstable::scan::merge;
use crate::sstable::scan::merge::{MergeScan, Source};
use crate::sstable::writer;

verus! {

/// Whether the entry that was read before, with the key `last`, hides an entry from
/// all readers when none is below `watermark`: it is the same version, or a newer
/// one of the same key that all readers see.
pub open spec fn hidden(last: Option<KeyView>, e: Entry, watermark: u64) -> bool {
    last matches Some(l) && l.user == e.0.user && (l.seq <= watermark || l.seq == e.0.seq)
}

/// Whether an entry is a deletion mark that may go: nothing older can be below, and
/// all readers are past it.
pub open spec fn erased(e: Entry, drop_tombstone: bool, watermark: u64) -> bool {
    drop_tombstone && e.1 is Delete && e.0.seq <= watermark
}

/// Whether an entry is still needed when no reader is below `watermark` and the
/// entry read before it had the key `last`.
///
/// Versions above the watermark are needed, and of the others the newest one. An
/// entry whose key was just read is not. When nothing older can be below, a
/// deletion mark that all readers are past is not needed either.
pub open spec fn needed(last: Option<KeyView>, e: Entry, drop_tombstone: bool, watermark: u64) -> bool {
    !hidden(last, e, watermark) && !erased(e, drop_tombstone, watermark)
}

/// The entries that are still needed, when `last` was read before them.
pub open spec fn kept(
    last: Option<KeyView>,
    es: Seq<Entry>,
    drop_tombstone: bool,
    watermark: u64,
) -> Seq<Entry>
    decreases es.len(),
{
    if es.len() == 0 {
        Seq::empty()
    } else {
        let rest = kept(Some(es[0].0), es.drop_first(), drop_tombstone, watermark);
        if needed(last, es[0], drop_tombstone, watermark) {
            seq![es[0]] + rest
        } else {
            rest
        }
    }
}

/// Tells, entry by entry, which ones are still needed.
pub struct KeepFilter {
    last: Option<Key>,
    drop_tombstone: bool,
    watermark: u64,
}

impl KeepFilter {
    /// The key that was read last.
    pub closed spec fn last(&self) -> Option<KeyView> {
        writer::key_view(self.last)
    }

    /// Whether deletion marks may go.
    pub closed spec fn drops(&self) -> bool {
        self.drop_tombstone
    }

    /// The sequence number below which no reader is.
    pub closed spec fn line(&self) -> u64 {
        self.watermark
    }

    /// A filter that has read nothing yet.
    pub fn new(drop_tombstone: bool, watermark: u64) -> (r: Self)
        ensures
            r.last() is None,
            r.drops() == drop_tombstone,
            r.line() == watermark,
    {
        KeepFilter { last: None, drop_tombstone, watermark }
    }

    /// Reads the key of an entry and tells whether the one before hides it.
    pub fn hides(&mut self, key: &Key) -> (r: bool)
        ensures
            forall|v: ValueView| r == #[trigger] hidden(old(self).last(), (key@, v), old(self).line()),
            final(self).last() == Some(key@),
            final(self).drops() == old(self).drops(),
            final(self).line() == old(self).line(),
    {
        let r: bool = match &self.last {
            Some(last) => {
                text::same(last.0.as_str(), key.0.as_str()) && (last.1 <= self.watermark || last.1
                    == key.1)
            },
            None => false,
        };
        self.last = Some(key.clone());
        r
    }

    /// Whether an entry is a deletion mark that may go.
    pub fn erases(&self, key: &Key, value: &Value) -> (r: bool)
        ensures
            r == erased((key@, value@), self.drops(), self.line()),
    {
        self.drop_tombstone && value.is_delete() && key.1 <= self.watermark
    }

    /// Reads an entry and tells whether it is needed.
    pub fn keeps(&mut self, key: &Key, value: &Value) -> (r: bool)
        ensures
            r == needed(
                old(self).last(),
                (key@, value@),
                old(self).drops(),
                old(self).line(),
            ),
            final(self).last() == Some(key@),
            final(self).drops() == old(self).drops(),
            final(self).line() == old(self).line(),
    {
        let hidden: bool = self.hides(key);
        assert(hidden == self::hidden(old(self).last(), (key@, value@), old(self).line()));
        !hidden && !self.erases(key, value)
    }
}

/// The mathematical content of a [`CompactionScan`].
pub struct CompactionView {
    /// The tables.
    pub sources: Seq<Source>,
    /// The entry that is given next, once the entry after it has been read.
    pub curr: Option<Entry>,
    /// The key that was read last.
    pub last: Option<KeyView>,
    /// Whether deletion marks may go.
    pub drops: bool,
    /// The sequence number below which no reader is.
    pub line: u64,
}

impl CompactionView {
    /// The scan behind an entry that is hidden, with the tables that remain.
    pub open spec fn skipped(self, e: Entry, sources: Seq<Source>) -> CompactionView {
        CompactionView { sources, last: Some(e.0), ..self }
    }

    /// The scan behind an entry that is not hidden, with the tables that remain: it
    /// is given next, unless it may go.
    pub open spec fn taken(self, e: Entry, sources: Seq<Source>) -> CompactionView {
        CompactionView {
            sources,
            curr: if erased(e, self.drops, self.line) {
                None
            } else {
                Some(e)
            },
            last: Some(e.0),
            ..self
        }
    }

    /// What the next step gives, and the scan behind it: the next entry of the
    /// tables that is needed. It is given once the next entry that is not hidden,
    /// or the end, has been read.
    pub open spec fn next(self) -> (Result<Option<Entry>, Fault>, CompactionView)
        decreases merge::budget(self.sources),
    {
        match merge::next(self.sources) {
            (Ok(Some(e)), sources) => {
                proof {
                    merge::lemma_next(self.sources);
                }
                if hidden(self.last, e, self.line) {
                    self.skipped(e, sources).next()
                } else if self.curr is Some {
                    (Ok(self.curr), self.taken(e, sources))
                } else {
                    self.taken(e, sources).next()
                }
            },
            (Ok(None), sources) => (
                Ok(self.curr),
                CompactionView { sources, curr: None, ..self },
            ),
            (Err(f), sources) => (Err(f), CompactionView { sources, ..self }),
        }
    }

    /// A bound on the number of entries that are still to come.
    pub open spec fn budget(self) -> nat {
        merge::budget(self.sources) + if self.curr is Some {
            1
        } else {
            0nat
        }
    }

    /// The entries that the scan gives, and the fault that ends them, if one
    /// does.
    pub open spec fn drained(self) -> (Seq<Entry>, Option<Fault>)
        decreases self.budget(),
    {
        match self.next() {
            (Ok(Some(e)), now) => {
                proof {
                    lemma_next_smaller(self);
                }
                (seq![e] + now.drained().0, now.drained().1)
            },
            (Ok(None), _) => (Seq::empty(), None),
            (Err(f), _) => (Seq::empty(), Some(f)),
        }
    }

    /// A scan that has read nothing yet.
    pub open spec fn start(sources: Seq<Source>, drops: bool, line: u64) -> CompactionView {
        CompactionView { sources, curr: None, last: None, drops, line }
    }

    /// A scan that has read its first entry, unless reading it failed.
    pub open spec fn opened(sources: Seq<Source>, drops: bool, line: u64) -> Result<
        CompactionView,
        Fault,
    > {
        let start = Self::start(sources, drops, line);
        match merge::next(sources) {
            (Ok(Some(e)), sources) => Ok(start.taken(e, sources)),
            (Ok(None), sources) => Ok(CompactionView { sources, ..start }),
            (Err(f), _) => Err(f),
        }
    }
}

/// A step that gives an entry leaves fewer to come.
pub proof fn lemma_next_smaller(v: CompactionView)
    ensures
        v.next().0 matches Ok(Some(_)) ==> v.next().1.budget() < v.budget(),
    decreases merge::budget(v.sources),
{
    merge::lemma_next(v.sources);
    if let (Ok(Some(e)), sources) = merge::next(v.sources) {
        if hidden(v.last, e, v.line) {
            lemma_next_smaller(v.skipped(e, sources));
        } else if v.curr is None {
            lemma_next_smaller(v.taken(e, sources));
        }
    }
}

/// The entry that is given next, as a sequence.
pub open spec fn held(curr: Option<Entry>) -> Seq<Entry> {
    match curr {
        Some(e) => seq![e],
        None => Seq::empty(),
    }
}

/// A step gives the first entry that is needed, if all tables can be read.
proof fn lemma_next_kept(v: CompactionView)
    ensures
        merge::merged(v.sources) matches Some(m) ==> {
            let es = held(v.curr) + kept(v.last, m, v.drops, v.line);
            match v.next() {
                (Ok(Some(e)), now) => {
                    &&& es.len() > 0
                    &&& es[0] == e
                    &&& now.drops == v.drops
                    &&& now.line == v.line
                    &&& merge::merged(now.sources) matches Some(rest)
                    &&& held(now.curr) + kept(now.last, rest, v.drops, v.line) == es.drop_first()
                },
                (Ok(None), _) => es.len() == 0,
                (Err(_), _) => false,
            }
        },
    decreases merge::budget(v.sources),
{
    merge::lemma_next(v.sources);
    if let Some(m) = merge::merged(v.sources) {
        let es = held(v.curr) + kept(v.last, m, v.drops, v.line);
        match merge::next(v.sources) {
            (Ok(Some(e)), sources) => {
                let rest = kept(Some(e.0), m.drop_first(), v.drops, v.line);
                if hidden(v.last, e, v.line) {
                    lemma_next_kept(v.skipped(e, sources));
                } else {
                    let t = v.taken(e, sources);
                    assert(kept(v.last, m, v.drops, v.line) =~= held(t.curr) + rest);
                    if v.curr is Some {
                        assert(es.drop_first() =~= held(t.curr) + rest);
                    } else {
                        assert(es =~= held(t.curr) + rest);
                        lemma_next_kept(t);
                    }
                }
            },
            (Ok(None), sources) => {
                assert(kept(v.last, m, v.drops, v.line) =~= Seq::<Entry>::empty());
                assert(es =~= held(v.curr));
                assert(es.len() > 0 ==> es.drop_first() =~= held(None) + kept(
                    v.last,
                    m,
                    v.drops,
                    v.line,
                ));
            },
            (Err(_), _) => {},
        }
    }
}

/// Tables that can all be read give the entries of their merge that are needed.
pub proof fn lemma_drained_kept(v: CompactionView)
    ensures
        merge::merged(v.sources) matches Some(m) ==> v.drained() == (
            held(v.curr) + kept(v.last, m, v.drops, v.line),
            None::<Fault>,
        ),
    decreases v.budget(),
{
    lemma_next_kept(v);
    lemma_next_smaller(v);
    if let Some(m) = merge::merged(v.sources) {
        let es = held(v.curr) + kept(v.last, m, v.drops, v.line);
        if let (Ok(Some(e)), now) = v.next() {
            lemma_drained_kept(now);
            assert(seq![e] + es.drop_first() =~= es);
        }
        assert(v.drained().0 =~= es);
    }
}

/// Tables that can all be read give, from the start, the entries of their merge
/// that are needed.
pub proof fn lemma_opened_kept(sources: Seq<Source>, drops: bool, line: u64)
    ensures
        merge::merged(sources) matches Some(m) ==> (CompactionView::opened(
            sources,
            drops,
            line,
        ) matches Ok(v) && v.drained() == (kept(None, m, drops, line), None::<Fault>)),
{
    merge::lemma_next(sources);
    if let Some(m) = merge::merged(sources) {
        let all = kept(None, m, drops, line);
        match merge::next(sources) {
            (Ok(Some(e)), rest) => {
                let v = CompactionView::start(sources, drops, line).taken(e, rest);
                lemma_drained_kept(v);
                assert(held(v.curr) + kept(v.last, m.drop_first(), drops, line) =~= all);
            },
            (Ok(None), rest) => {
                let v = CompactionView { sources: rest, ..CompactionView::start(sources, drops, line) };
                lemma_drained_kept(v);
                assert(held(v.curr) + all =~= all);
            },
            (Err(_), _) => {},
        }
    }
}

/// The content of an entry, if there is one.
spec fn entry_of(curr: Option<(Key, Value)>) -> Option<Entry> {
    match curr {
        Some((k, v)) => Some((k@, v@)),
        None => None,
    }
}

/// Reads the entries of several tables that are still needed.
pub struct CompactionScan {
    scan: MergeScan,
    curr: Option<(Key, Value)>,
    filter: KeepFilter,
}

impl View for CompactionScan {
    type V = CompactionView;

    closed spec fn view(&self) -> CompactionView {
        CompactionView {
            sources: self.scan@,
            curr: entry_of(self.curr),
            last: self.filter.last(),
            drops: self.filter.drops(),
            line: self.filter.line(),
        }
    }
}

impl CompactionScan {
    /// The tables are in good order.
    pub closed spec fn wf(&self) -> bool {
        self.scan.wf()
    }

    /// Starts to read: reads the first entry.
    pub fn new(scan: MergeScan, drop_tombstone: bool, read_ts_watermark: u64) -> (r: DbResult<Self>)
        requires
            scan.wf(),
        ensures
            r matches Ok(c) ==> c.wf() && CompactionView::opened(
                scan@,
                drop_tombstone,
                read_ts_watermark,
            ) == Ok::<CompactionView, Fault>(c@),
            r matches Err(e) ==> CompactionView::opened(
                scan@,
                drop_tombstone,
                read_ts_watermark,
            ) matches Err(f) && e.reports(f),
    {
        let mut c = CompactionScan {
            scan,
            curr: None,
            filter: KeepFilter::new(drop_tombstone, read_ts_watermark),
        };
        match c.scan.next() {
            Err(e) => {
                return Err(e);
            },
            Ok(None) => {},
            Ok(Some((key, value))) => {
                let _ = c.filter.hides(&key);
                if !c.filter.erases(&key, &value) {
                    c.curr = Some((key, value));
                }
            },
        }
        Ok(c)
    }

    /// The next entry that is still needed, if there is one.
    pub fn next(&mut self) -> (r: DbResult<Option<(Key, Value)>>)
        requires
            old(self).wf(),
        ensures
            final(self).wf(),
            r matches Ok(None) ==> old(self)@.next() == (
                Ok::<Option<Entry>, Fault>(None),
                final(self)@,
            ),
            r matches Ok(Some((k, v))) ==> old(self)@.next() == (
                Ok::<Option<Entry>, Fault>(Some((k@, v@))),
                final(self)@,
            ),
            r matches Err(e) ==> old(self)@.next().1 == final(self)@ && (old(
                self,
            )@.next().0 matches Err(f) && e.reports(f)),
    {
        loop
            invariant
                self.wf(),
                self@.next() == old(self)@.next(),
            decreases merge::budget(self@.sources),
        {
            let ghost before = self@;
            proof {
                merge::lemma_next(self@.sources);
            }
            match self.scan.next() {
                Err(e) => {
                    return Err(e);
                },
                Ok(None) => {
                    return Ok(self.curr.take());
                },
                Ok(Some((key, value))) => {
                    let ghost e = (key@, value@);
                    let hidden: bool = self.filter.hides(&key);
                    assert(hidden == self::hidden(before.last, e, before.line));
                    if !hidden {
                        let erased: bool = self.filter.erases(&key, &value);
                        let curr = self.curr.take();
                        if !erased {
                            self.curr = Some((key, value));
                        }
                        assert(self@ == before.taken(e, self@.sources));
                        if curr.is_some() {
                            return Ok(curr);
                        }
                    }
                },
            }
        }
    }
}

/// What was read before entry `i`.
pub open spec fn before(last: Option<KeyView>, es: Seq<Entry>, i: int) -> Option<KeyView> {
    if i == 0 {
        last
    } else {
        Some(es[i - 1].0)
    }
}

/// Every entry that is kept stands in the input and is needed there.
proof fn lemma_kept_from(
    last: Option<KeyView>,
    es: Seq<Entry>,
    drop_tombstone: bool,
    watermark: u64,
    x: int,
) -> (i: int)
    requires
        0 <= x < kept(last, es, drop_tombstone, watermark).len(),
    ensures
        0 <= i < es.len(),
        es[i] == kept(last, es, drop_tombstone, watermark)[x],
        needed(before(last, es, i), es[i], drop_tombstone, watermark),
    decreases es.len(),
{
    let rest = es.drop_first();
    let here = needed(last, es[0], drop_tombstone, watermark);
    if here && x == 0 {
        0
    } else {
        let y = if here { x - 1 } else { x };
        let i = lemma_kept_from(Some(es[0].0), rest, drop_tombstone, watermark, y);
        assert(rest[i] == es[i + 1]);
        assert(before(Some(es[0].0), rest, i) == before(last, es, i + 1));
        i + 1
    }
}

/// Every entry that is needed is kept.
proof fn lemma_kept_has(
    last: Option<KeyView>,
    es: Seq<Entry>,
    drop_tombstone: bool,
    watermark: u64,
    i: int,
) -> (x: int)
    requires
        0 <= i < es.len(),
        needed(before(last, es, i), es[i], drop_tombstone, watermark),
    ensures
        0 <= x < kept(last, es, drop_tombstone, watermark).len(),
        kept(last, es, drop_tombstone, watermark)[x] == es[i],
    decreases es.len(),
{
    let rest = es.drop_first();
    let here = needed(last, es[0], drop_tombstone, watermark);
    if i == 0 {
        0
    } else {
        assert(rest[i - 1] == es[i]);
        assert(before(Some(es[0].0), rest, i - 1) == before(last, es, i));
        let x = lemma_kept_has(Some(es[0].0), rest, drop_tombstone, watermark, i - 1);
        if here {
            x + 1
        } else {
            x
        }
    }
}

/// An entry that is needed is the first one with its key.
proof fn lemma_needed_first(es: Seq<Entry>, drop_tombstone: bool, watermark: u64, i: int, j: int)
    requires
        versions::ascending(es),
        0 <= j < i < es.len(),
        needed(before(None, es, i), es[i], drop_tombstone, watermark),
    ensures
        es[j].0.lt(es[i].0),
{
    broadcast use {
        key::lemma_key_irreflexive,
        key::lemma_key_transitive,
        key::lemma_key_asymmetric,
    };

    assert(es[i - 1].0.le(es[i].0));
    assert(es[i - 1].0 != es[i].0);
    if j < i - 1 {
        assert(es[j].0.le(es[i - 1].0));
    }
}

proof fn lemma_kept_sorted_from(
    last: Option<KeyView>,
    es: Seq<Entry>,
    drop_tombstone: bool,
    watermark: u64,
)
    requires
        versions::ascending(es),
    ensures
        versions::sorted(kept(last, es, drop_tombstone, watermark)),
    decreases es.len(),
{
    broadcast use {
        key::lemma_key_irreflexive,
        key::lemma_key_transitive,
        key::lemma_key_asymmetric,
    };

    if es.len() > 0 {
        let rest = es.drop_first();
        assert forall|x: int, y: int| 0 <= x < y < rest.len() implies (#[trigger] rest[x]).0.le(
            (#[trigger] rest[y]).0,
        ) by {
            assert(rest[x] == es[x + 1] && rest[y] == es[y + 1]);
        }
        lemma_kept_sorted_from(Some(es[0].0), rest, drop_tombstone, watermark);
        let ks = kept(last, es, drop_tombstone, watermark);
        let kr = kept(Some(es[0].0), rest, drop_tombstone, watermark);
        if needed(last, es[0], drop_tombstone, watermark) {
            assert forall|x: int, y: int| 0 <= x < y < ks.len() implies (#[trigger] ks[x]).0.lt(
                (#[trigger] ks[y]).0,
            ) by {
                assert(ks[y] == kr[y - 1]);
                if x > 0 {
                    assert(ks[x] == kr[x - 1]);
                } else {
                    let i = lemma_kept_from(
                        Some(es[0].0),
                        rest,
                        drop_tombstone,
                        watermark,
                        y - 1,
                    );
                    assert(rest[i] == es[i + 1]);
                    assert(es[0].0.le(es[i + 1].0));
                    assert(es[i].0.le(es[i + 1].0));
                    if i > 0 {
                        assert(es[0].0.le(es[i].0));
                        assert(rest[i - 1] == es[i]);
                    }
                }
            }
        }
    }
}

/// What compaction keeps of entries in key order stands in strictly ascending
/// order: no key occurs twice.
pub proof fn law_compaction_sorted(es: Seq<Entry>, drop_tombstone: bool, watermark: u64)
    requires
        versions::ascending(es),
    ensures
        versions::sorted(kept(None, es, drop_tombstone, watermark)),
{
    lemma_kept_sorted_from(None, es, drop_tombstone, watermark);
}

/// The versions that compaction keeps are versions of the input.
pub proof fn lemma_kept_versions(es: Seq<Entry>, drop_tombstone: bool, watermark: u64, k: KeyView)
    requires
        versions::ascending(es),
    ensures
        versions::map_of(kept(None, es, drop_tombstone, watermark)).contains_key(k) ==> {
            &&& versions::map_of(es).contains_key(k)
            &&& versions::map_of(es)[k] == versions::map_of(
                kept(None, es, drop_tombstone, watermark),
            )[k]
        },
{
    let ks = kept(None, es, drop_tombstone, watermark);
    versions::lemma_map_of_keys(ks);
    if versions::has_key(ks, k) {
        lemma_kept_sorted_from(None, es, drop_tombstone, watermark);
        versions::lemma_map_of_sorted(ks);
        let x = choose|x: int| 0 <= x < ks.len() && (#[trigger] ks[x]).0 == k;
        let i = lemma_kept_from(None, es, drop_tombstone, watermark, x);
        assert forall|j: int| 0 <= j < i implies (#[trigger] es[j]).0 != es[i].0 by {
            lemma_needed_first(es, drop_tombstone, watermark, i, j);
            key::lemma_key_irreflexive(es[i].0);
        }
        versions::lemma_map_of_first(es, i);
    }
}

/// The first entry with a key, in entries in key order.
proof fn lemma_first_entry(es: Seq<Entry>, k: KeyView, i: int) -> (r: int)
    requires
        versions::ascending(es),
        0 <= i < es.len(),
        es[i].0 == k,
    ensures
        0 <= r <= i,
        es[r].0 == k,
        forall|j: int| 0 <= j < r ==> (#[trigger] es[j]).0.lt(k),
    decreases i,
{
    broadcast use {
        key::lemma_key_irreflexive,
        key::lemma_key_transitive,
        key::lemma_key_asymmetric,
    };

    if i > 0 && es[i - 1].0 == k {
        lemma_first_entry(es, k, i - 1)
    } else {
        assert forall|j: int| 0 <= j < i implies (#[trigger] es[j]).0.lt(k) by {
            assert(es[i - 1].0.le(es[i].0));
            if j < i - 1 {
                assert(es[j].0.le(es[i - 1].0));
            }
        }
        i
    }
}

/// The newest version that a reader at or above the watermark may see is kept,
/// unless it is a deletion mark that may go.
proof fn lemma_newest_kept(
    es: Seq<Entry>,
    drop_tombstone: bool,
    watermark: u64,
    user: Seq<char>,
    snap: u64,
    s: u64,
)
    requires
        versions::ascending(es),
        watermark <= snap,
        versions::newest(versions::map_of(es), user, snap, s),
        !(drop_tombstone && versions::map_of(es)[KeyView { user, seq: s }] is Delete && s
            <= watermark),
    ensures
        versions::map_of(kept(None, es, drop_tombstone, watermark)).contains_key(
            KeyView { user, seq: s },
        ),
{
    broadcast use text::lemma_text_irreflexive;

    let m = versions::map_of(es);
    let k = KeyView { user, seq: s };
    let ks = kept(None, es, drop_tombstone, watermark);
    versions::lemma_map_of_keys(es);
    versions::lemma_map_of_keys(ks);
    assert(versions::has_key(es, k));
    let a = choose|a: int| 0 <= a < es.len() && (#[trigger] es[a]).0 == k;
    let i = lemma_first_entry(es, k, a);
    assert forall|j: int| 0 <= j < i implies (#[trigger] es[j]).0 != es[i].0 by {
        key::lemma_key_irreflexive(k);
    }
    versions::lemma_map_of_first(es, i);
    if i > 0 && es[i - 1].0.user == user {
        let p = es[i - 1].0;
        assert(p.lt(k));
        assert(p.seq > s);
        if p.seq <= snap {
            assert(p == KeyView { user, seq: p.seq });
            assert(versions::has_key(es, p));
            assert(m.contains_key(KeyView { user, seq: p.seq }));
            assert(false);
        }
    }
    assert(needed(before(None, es, i), es[i], drop_tombstone, watermark));
    let x = lemma_kept_has(None, es, drop_tombstone, watermark, i);
    assert(ks[x].0 == k);
}

/// Where a deletion mark that all readers are past is the newest version, no
/// older version is kept.
proof fn lemma_erased(
    es: Seq<Entry>,
    watermark: u64,
    user: Seq<char>,
    snap: u64,
    s: u64,
)
    requires
        versions::ascending(es),
        watermark <= snap,
        versions::newest(versions::map_of(es), user, snap, s),
        versions::map_of(es)[KeyView { user, seq: s }] is Delete,
        s <= watermark,
    ensures
        versions::lookup(versions::map_of(kept(None, es, true, watermark)), user, snap) is Absent,
{
    broadcast use {text::lemma_text_irreflexive, key::lemma_key_irreflexive};

    let m = versions::map_of(es);
    let k = KeyView { user, seq: s };
    let ks = kept(None, es, true, watermark);
    let km = versions::map_of(ks);
    versions::lemma_map_of_keys(es);
    versions::lemma_map_of_keys(ks);
    assert(versions::has_key(es, k));
    let a = choose|a: int| 0 <= a < es.len() && (#[trigger] es[a]).0 == k;
    let b = lemma_first_entry(es, k, a);
    assert forall|j: int| 0 <= j < b implies (#[trigger] es[j]).0 != es[b].0 by {
        key::lemma_key_irreflexive(k);
    }
    versions::lemma_map_of_first(es, b);
    assert forall|x: u64| x <= snap implies !#[trigger] km.contains_key(
        KeyView { user, seq: x },
    ) by {
        let kx = KeyView { user, seq: x };
        if km.contains_key(kx) {
            lemma_kept_versions(es, true, watermark, kx);
            assert(x <= s);
            let y = choose|y: int| 0 <= y < ks.len() && (#[trigger] ks[y]).0 == kx;
            let i = lemma_kept_from(None, es, true, watermark, y);
            if i <= b {
                if i < b {
                    assert(es[i].0.lt(k));
                }
                assert(i == b);
                assert(false);
            } else {
                lemma_needed_first(es, true, watermark, i, b);
                assert(es[b].0.le(es[i - 1].0)) by {
                    if b < i - 1 {
                        assert(es[b].0.le(es[i - 1].0));
                    }
                }
                assert(es[i - 1].0.le(es[i].0));
                lemma_between(es[b].0, es[i - 1].0, es[i].0);
                assert(false);
            }
        }
    }
    versions::lemma_lookup_absent(km, user, snap);
}

/// A key between two versions of a user key is a version of it.
proof fn lemma_between(a: KeyView, b: KeyView, c: KeyView)
    requires
        a.le(b),
        b.le(c),
        a.user == c.user,
    ensures
        b.user == a.user,
        c.seq <= b.seq <= a.seq,
{
    text::lemma_text_irreflexive(a.user);
    if text::text_lt(a.user, b.user) && text::text_lt(b.user, c.user) {
        text::lemma_text_transitive(a.user, b.user, c.user);
    }
}

/// Compaction changes no answer that a reader at or above the watermark gets.
/// Where deletion marks stay, it does not even change whether such a mark is
/// found.
pub proof fn law_compaction_keeps_answers(
    es: Seq<Entry>,
    drop_tombstone: bool,
    watermark: u64,
    user: Seq<char>,
    snap: u64,
)
    requires
        versions::ascending(es),
        watermark <= snap,
    ensures
        ({
            let old_answer = versions::lookup(versions::map_of(es), user, snap);
            let new_answer = versions::lookup(
                versions::map_of(kept(None, es, drop_tombstone, watermark)),
                user,
                snap,
            );
            &&& new_answer.answer() == old_answer.answer()
            &&& !drop_tombstone ==> new_answer == old_answer
        }),
{
    let m = versions::map_of(es);
    let km = versions::map_of(kept(None, es, drop_tombstone, watermark));
    versions::lemma_lookup_absent(m, user, snap);
    versions::lemma_lookup_absent(km, user, snap);
    if exists|s: u64| versions::newest(m, user, snap, s) {
        let s = choose|s: u64| versions::newest(m, user, snap, s);
        let k = KeyView { user, seq: s };
        versions::lemma_lookup_newest(m, user, snap, s);
        if drop_tombstone && m[k] is Delete && s <= watermark {
            lemma_erased(es, watermark, user, snap, s);
        } else {
            lemma_newest_kept(es, drop_tombstone, watermark, user, snap, s);
            lemma_kept_versions(es, drop_tombstone, watermark, k);
            assert(versions::newest(km, user, snap, s)) by {
                assert forall|x: u64| s < x <= snap implies !#[trigger] km.contains_key(
                    KeyView { user, seq: x },
                ) by {
                    lemma_kept_versions(
                        es,
                        drop_tombstone,
                        watermark,
                        KeyView { user, seq: x },
                    );
                    assert(!m.contains_key(KeyView { user, seq: x }));
                }
            }
            versions::lemma_lookup_newest(km, user, snap, s);
        }
    } else {
        assert(versions::lookup(m, user, snap) is Absent);
        assert forall|x: u64| x <= snap implies !#[trigger] km.contains_key(
            KeyView { user, seq: x },
        ) by {
            lemma_kept_versions(es, drop_tombstone, watermark, KeyView { user, seq: x });
            assert(!m.contains_key(KeyView { user, seq: x }));
        }
    }
}

/// What compaction keeps: a version stays exactly when it is in the input, no newer
/// version of its key is at or below the watermark, and it is not a deletion mark at or
/// below the watermark while such marks may go. What stays keeps its value.
pub proof fn law_compaction_keeps_exactly(
    es: Seq<Entry>,
    drop_tombstone: bool,
    watermark: u64,
    k: KeyView,
)
    requires
        versions::ascending(es),
    ensures
        ({
            let m = versions::map_of(es);
            let km = versions::map_of(kept(None, es, drop_tombstone, watermark));
            &&& km.contains_key(k) <==> m.contains_key(k) && (forall|x: u64|
                k.seq < x <= watermark ==> !#[trigger] m.contains_key(
                    KeyView { user: k.user, seq: x },
                )) && !(drop_tombstone && m[k] is Delete && k.seq <= watermark)
            &&& km.contains_key(k) ==> km[k] == m[k]
        }),
{
    broadcast use {
        key::lemma_key_irreflexive,
        key::lemma_key_asymmetric,
        text::lemma_text_irreflexive,
    };

    let m = versions::map_of(es);
    let ks = kept(None, es, drop_tombstone, watermark);
    let km = versions::map_of(ks);
    versions::lemma_map_of_keys(es);
    versions::lemma_map_of_keys(ks);
    lemma_kept_versions(es, drop_tombstone, watermark, k);
    if km.contains_key(k) {
        let y = choose|y: int| 0 <= y < ks.len() && (#[trigger] ks[y]).0 == k;
        let i = lemma_kept_from(None, es, drop_tombstone, watermark, y);
        assert forall|j: int| 0 <= j < i implies (#[trigger] es[j]).0 != es[i].0 by {
            lemma_needed_first(es, drop_tombstone, watermark, i, j);
        }
        versions::lemma_map_of_first(es, i);
        assert forall|x: u64| k.seq < x <= watermark implies !#[trigger] m.contains_key(
            KeyView { user: k.user, seq: x },
        ) by {
            let kx = KeyView { user: k.user, seq: x };
            if m.contains_key(kx) {
                let a = choose|a: int| 0 <= a < es.len() && (#[trigger] es[a]).0 == kx;
                if a > i {
                    assert(es[i].0.le(es[a].0));
                } else if a < i {
                    if a < i - 1 {
                        assert(es[a].0.le(es[i - 1].0));
                    }
                    assert(es[i - 1].0.le(es[i].0));
                    lemma_between(es[a].0, es[i - 1].0, es[i].0);
                }
                assert(false);
            }
        }
    }
    if m.contains_key(k) && (forall|x: u64|
        k.seq < x <= watermark ==> !#[trigger] m.contains_key(KeyView { user: k.user, seq: x }))
        && !(drop_tombstone && m[k] is Delete && k.seq <= watermark) {
        let a = choose|a: int| 0 <= a < es.len() && (#[trigger] es[a]).0 == k;
        let i = lemma_first_entry(es, k, a);
        assert forall|j: int| 0 <= j < i implies (#[trigger] es[j]).0 != es[i].0 by {}
        versions::lemma_map_of_first(es, i);
        if i > 0 && es[i - 1].0.user == k.user {
            let p = es[i - 1].0;
            assert(p.lt(k));
            assert(p == KeyView { user: k.user, seq: p.seq });
            assert(versions::has_key(es, p));
            assert(m.contains_key(KeyView { user: k.user, seq: p.seq }));
        }
        let x = lemma_kept_has(None, es, drop_tombstone, watermark, i);
        assert(ks[x].0 == k);
    }
}

/// What compaction keeps has no more bytes than the input, and is of the input.
pub proof fn lemma_kept_volume(
    last: Option<KeyView>,
    es: Seq<Entry>,
    drop_tombstone: bool,
    watermark: u64,
)
    ensures
        versions::volume(kept(last, es, drop_tombstone, watermark)) <= versions::volume(es),
        forall|x: int|
            0 <= x < kept(last, es, drop_tombstone, watermark).len() ==> es.contains(
                #[trigger] kept(last, es, drop_tombstone, watermark)[x],
            ),
    decreases es.len(),
{
    let ks = kept(last, es, drop_tombstone, watermark);
    assert forall|x: int| 0 <= x < ks.len() implies es.contains(#[trigger] ks[x]) by {
        let i = lemma_kept_from(last, es, drop_tombstone, watermark, x);
        assert(es[i] == ks[x]);
    }
    if es.len() > 0 {
        let rest = es.drop_first();
        lemma_kept_volume(Some(es[0].0), rest, drop_tombstone, watermark);
        let kr = kept(Some(es[0].0), rest, drop_tombstone, watermark);
        assert(es =~= seq![es[0]] + rest);
        lemma_volume_join(seq![es[0]], rest);
        if needed(last, es[0], drop_tombstone, watermark) {
            assert(ks =~= seq![es[0]] + kr);
            lemma_volume_join(seq![es[0]], kr);
        }
    }
}

/// The volume of two runs of entries.
proof fn lemma_volume_join(a: Seq<Entry>, b: Seq<Entry>)
    ensures
        versions::volume(a + b) == versions::volume(a) + versions::volume(b),
    decreases b.len(),
{
    if b.len() == 0 {
        assert(a + b =~= a);
    } else {
        assert((a + b).drop_last() =~= a + b.drop_last());
        lemma_volume_join(a, b.drop_last());
    }
}

/// A step over tables of which one cannot be read to its end fails, or leaves that to a
/// later step: it does not come to an end.
proof fn lemma_next_unreadable(v: CompactionView)
    requires
        merge::merged(v.sources) is None,
    ensures
        match v.next() {
            (Ok(Some(_)), now) => merge::merged(now.sources) is None,
            (Ok(None), _) => false,
            (Err(_), _) => true,
        },
    decreases merge::budget(v.sources),
{
    merge::lemma_next(v.sources);
    if let (Ok(Some(e)), sources) = merge::next(v.sources) {
        if hidden(v.last, e, v.line) {
            lemma_next_unreadable(v.skipped(e, sources));
        } else if v.curr is None {
            lemma_next_unreadable(v.taken(e, sources));
        }
    }
}

/// Tables of which one cannot be read to its end are not drained without a fault.
pub proof fn lemma_drained_unreadable(v: CompactionView)
    requires
        merge::merged(v.sources) is None,
    ensures
        v.drained().1 is Some,
    decreases v.budget(),
{
    lemma_next_unreadable(v);
    lemma_next_smaller(v);
    if let (Ok(Some(_)), now) = v.next() {
        lemma_drained_unreadable(now);
    }
}

} // verus!
