//! Layers of versions, the newest first, and how they answer a read together.

use vstd::prelude::*;

use crate::common::error::Fault;
use crate::common::key::KeyView;
use crate::common::lookup::LookupView;
use crate::common::value::ValueView;
use crate::common::versions;
use crate::common::versions::Entry;
use crate::sstable::layout;
use crate::sstable::meta;
use crate::sstable::meta::MetaView;
use crate::sstable::scan::compaction;
use crate::sstable::scan::merge;
use crate::sstable::scan::table::ScanView;
use crate::sstable::table;
use crate::sstable::table::SSTable;
use crate::storage::wal;

verus! {

/// A set of versions.
pub type Versions = Map<KeyView, ValueView>;

/// What a reader at `snap` finds under `user` in layers: the first thing that one
/// of them answers.
pub open spec fn read(ls: Seq<Versions>, user: Seq<char>, snap: u64) -> LookupView
    decreases ls.len(),
{
    if ls.len() == 0 {
        LookupView::Absent
    } else {
        versions::lookup(ls[0], user, snap).or(read(ls.drop_first(), user, snap))
    }
}

/// The versions of all layers. Of several versions with the same key that of the
/// first layer counts.
pub open spec fn together(ls: Seq<Versions>) -> Versions
    decreases ls.len(),
{
    if ls.len() == 0 {
        Map::empty()
    } else {
        together(ls.drop_first()).union_prefer_right(ls[0])
    }
}

/// Whether no version is newer than one of the same user key in an earlier layer.
pub open spec fn recent_first(ls: Seq<Versions>) -> bool {
    forall|i: int, j: int, a: KeyView, b: KeyView|
        0 <= i < j < ls.len() && #[trigger] ls[i].contains_key(a) && #[trigger] ls[j].contains_key(
            b,
        ) && a.user == b.user ==> a.seq >= b.seq
}

/// Whether no version has a sequence number above `top`.
pub open spec fn at_most(ls: Seq<Versions>, top: u64) -> bool {
    forall|i: int, k: KeyView|
        0 <= i < ls.len() && #[trigger] ls[i].contains_key(k) ==> k.seq <= top
}

proof fn lemma_together_keys(ls: Seq<Versions>, k: KeyView)
    ensures
        together(ls).contains_key(k) <==> exists|i: int|
            0 <= i < ls.len() && #[trigger] ls[i].contains_key(k),
    decreases ls.len(),
{
    if ls.len() > 0 {
        let rest = ls.drop_first();
        lemma_together_keys(rest, k);
        if together(rest).contains_key(k) {
            let i = choose|i: int| 0 <= i < rest.len() && #[trigger] rest[i].contains_key(k);
            assert(ls[i + 1].contains_key(k));
        }
        if exists|i: int| 0 <= i < ls.len() && #[trigger] ls[i].contains_key(k) {
            let i = choose|i: int| 0 <= i < ls.len() && #[trigger] ls[i].contains_key(k);
            if i > 0 {
                assert(rest[i - 1].contains_key(k));
            }
        }
    }
}

/// Reading one layer after the other finds what one set of all versions would
/// answer, when no layer holds a newer version of a key than an earlier layer.
pub proof fn law_layers_answer_as_one(ls: Seq<Versions>, user: Seq<char>, snap: u64)
    requires
        recent_first(ls),
    ensures
        read(ls, user, snap) == versions::lookup(together(ls), user, snap),
    decreases ls.len(),
{
    let all = together(ls);
    if ls.len() == 0 {
        versions::lemma_lookup_absent(all, user, snap);
    } else {
        let (top, rest) = (ls[0], ls.drop_first());
        assert forall|i: int, j: int, a: KeyView, b: KeyView|
            0 <= i < j < rest.len() && #[trigger] rest[i].contains_key(a)
                && #[trigger] rest[j].contains_key(b) && a.user == b.user implies a.seq
            >= b.seq by {
            assert(ls[i + 1].contains_key(a) && ls[j + 1].contains_key(b));
        }
        law_layers_answer_as_one(rest, user, snap);
        versions::lemma_lookup_absent(top, user, snap);
        if versions::lookup(top, user, snap) is Absent {
            versions::lemma_lookup_agree(all, together(rest), user, snap);
        } else {
            let s = choose|s: u64| versions::newest(top, user, snap, s);
            let k = KeyView { user, seq: s };
            assert(top.contains_key(k));
            assert(all.contains_key(k) && all[k] == top[k]);
            assert(versions::newest(all, user, snap, s)) by {
                assert forall|x: u64| s < x <= snap implies !#[trigger] all.contains_key(
                    KeyView { user, seq: x },
                ) by {
                    let b = KeyView { user, seq: x };
                    assert(!top.contains_key(b));
                    lemma_together_keys(rest, b);
                    if together(rest).contains_key(b) {
                        let i = choose|i: int|
                            0 <= i < rest.len() && #[trigger] rest[i].contains_key(b);
                        assert(ls[0].contains_key(k) && ls[i + 1].contains_key(b));
                    }
                }
            }
            versions::lemma_lookup_newest(top, user, snap, s);
            versions::lemma_lookup_newest(all, user, snap, s);
        }
    }
}

/// Layers one after the other are read one after the other.
pub proof fn lemma_read_join(a: Seq<Versions>, b: Seq<Versions>, user: Seq<char>, snap: u64)
    ensures
        read(a + b, user, snap) == read(a, user, snap).or(read(b, user, snap)),
    decreases a.len(),
{
    if a.len() == 0 {
        assert(a + b =~= b);
    } else {
        assert((a + b).drop_first() =~= a.drop_first() + b);
        lemma_read_join(a.drop_first(), b, user, snap);
    }
}

/// A single layer answers as its versions do.
pub proof fn lemma_read_one(m: Versions, user: Seq<char>, snap: u64)
    ensures
        read(seq![m], user, snap) == versions::lookup(m, user, snap),
{
    assert(seq![m].drop_first() =~= Seq::<Versions>::empty());
    assert(read(seq![m].drop_first(), user, snap) is Absent);
}

/// An empty layer answers nothing.
pub proof fn lemma_empty_layer(user: Seq<char>, snap: u64)
    ensures
        versions::lookup(Map::empty(), user, snap) is Absent,
{
    versions::lemma_lookup_absent(Map::empty(), user, snap);
}

/// What a file gives back for versions has the same keys.
pub proof fn lemma_stored_versions(es: Seq<Entry>)
    ensures
        forall|k: KeyView| #[trigger]
            versions::map_of(layout::stored(es)).contains_key(k) <==> versions::map_of(
                es,
            ).contains_key(k),
        forall|k: KeyView| #[trigger]
            versions::map_of(layout::stored(es)).contains_key(k) ==> versions::map_of(
                layout::stored(es),
            )[k] == versions::map_of(es)[k].stored(),
    decreases es.len(),
{
    if es.len() > 0 {
        let rest = es.drop_first();
        lemma_stored_versions(rest);
        assert(layout::stored(es).drop_first() =~= layout::stored(rest));
        assert(layout::stored(es)[0] == layout::stored_entry(es[0]));
    }
}

impl LookupView {
    /// What a file gives back for this: an empty text comes back as a deletion
    /// mark.
    pub open spec fn stored(self) -> LookupView {
        match self {
            LookupView::Found(s) => if s.len() == 0 {
                LookupView::Deleted
            } else {
                self
            },
            _ => self,
        }
    }
}

/// What a file gives back for versions answers what a file gives back for the
/// answer.
pub proof fn lemma_stored_lookup(es: Seq<Entry>, user: Seq<char>, snap: u64)
    ensures
        versions::lookup(versions::map_of(layout::stored(es)), user, snap) == versions::lookup(
            versions::map_of(es),
            user,
            snap,
        ).stored(),
{
    lemma_stored_versions(es);
    lemma_stored_map(versions::map_of(layout::stored(es)), versions::map_of(es), user, snap);
}

/// Whether a table is one that was written whole.
pub open spec fn sound(t: SSTable) -> bool {
    exists|es: Seq<Entry>| #[trigger] table::is_table(es, t.bytes(), t.meta@)
}

/// The versions in a table.
pub open spec fn content(t: SSTable) -> Versions {
    match ScanView::opened(t.bytes()) {
        Ok(v) => match v.all() {
            Ok(es) => versions::map_of(es),
            Err(_) => Map::empty(),
        },
        Err(_) => Map::empty(),
    }
}

/// The versions in each of these tables.
pub open spec fn contents(ts: Seq<SSTable>) -> Seq<Versions> {
    Seq::new(ts.len(), |i: int| content(ts[i]))
}

/// Whether each of these tables was written whole.
pub open spec fn all_sound(ts: Seq<SSTable>) -> bool {
    forall|i: int| 0 <= i < ts.len() ==> sound(#[trigger] ts[i])
}

/// The versions in a table are those that were written into it.
pub proof fn lemma_content(es: Seq<Entry>, t: SSTable)
    requires
        table::is_table(es, t.bytes(), t.meta@),
    ensures
        content(t) == versions::map_of(layout::stored(es)),
        sound(t),
{
    table::law_scan_round_trip(es, t.bytes(), t.meta@);
}

/// A search in tables that were written whole finds what their versions answer,
/// one table after the other.
pub proof fn law_disk_answers(ts: Seq<SSTable>, user: Seq<char>, snap: u64)
    requires
        all_sound(ts),
    ensures
        crate::storage::storage::disk_get(ts, user, snap) == Ok::<LookupView, Fault>(
            read(contents(ts), user, snap),
        ),
    decreases ts.len(),
{
    if ts.len() > 0 {
        let t = ts[0];
        assert(sound(t));
        let es = choose|es: Seq<Entry>| #[trigger] table::is_table(es, t.bytes(), t.meta@);
        table::law_get_round_trip(es, t.bytes(), t.meta@, user, snap);
        lemma_content(es, t);
        assert(contents(ts).drop_first() =~= contents(ts.drop_first()));
        assert forall|i: int| 0 <= i < ts.drop_first().len() implies sound(
            #[trigger] ts.drop_first()[i],
        ) by {
            assert(sound(ts[i + 1]));
        }
        law_disk_answers(ts.drop_first(), user, snap);
    }
}

/// What a flush writes of a table in memory answers readers at or above the
/// watermark as the table in memory did.
pub proof fn law_flushed_table_answers(
    es: Seq<Entry>,
    watermark: u64,
    t: SSTable,
    user: Seq<char>,
    snap: u64,
)
    requires
        versions::ascending(es),
        table::is_table(compaction::kept(None, es, false, watermark), t.bytes(), t.meta@),
        watermark <= snap,
    ensures
        versions::lookup(content(t), user, snap) == versions::lookup(
            versions::map_of(es),
            user,
            snap,
        ).stored(),
{
    let ks = compaction::kept(None, es, false, watermark);
    lemma_content(ks, t);
    lemma_stored_lookup(ks, user, snap);
    compaction::law_compaction_keeps_answers(es, false, watermark, user, snap);
}

/// What no layer knows, none of them knows.
pub proof fn lemma_read_absent(ls: Seq<Versions>, user: Seq<char>, snap: u64, i: int)
    requires
        read(ls, user, snap) is Absent,
        0 <= i < ls.len(),
    ensures
        versions::lookup(ls[i], user, snap) is Absent,
    decreases ls.len(),
{
    if i > 0 {
        lemma_read_absent(ls.drop_first(), user, snap, i - 1);
    }
}

/// What a table in memory does not know, the table that a flush writes of it does
/// not know.
pub proof fn lemma_flushed_absent(
    es: Seq<Entry>,
    watermark: u64,
    t: SSTable,
    user: Seq<char>,
    snap: u64,
)
    requires
        versions::sorted(es),
        table::is_table(compaction::kept(None, es, false, watermark), t.bytes(), t.meta@),
        versions::lookup(versions::map_of(es), user, snap) is Absent,
    ensures
        table::table_get(t.meta@, t.bytes(), user, snap) == Ok::<LookupView, Fault>(
            LookupView::Absent,
        ),
{
    let ks = compaction::kept(None, es, false, watermark);
    let m = versions::map_of(layout::stored(ks));
    versions::lemma_sorted_ascending(es);
    lemma_stored_versions(ks);
    versions::lemma_lookup_absent(versions::map_of(es), user, snap);
    assert forall|s: u64| s <= snap implies !#[trigger] m.contains_key(KeyView { user, seq: s }) by {
        let k = KeyView { user, seq: s };
        compaction::lemma_kept_versions(es, false, watermark, k);
        assert(!versions::map_of(es).contains_key(k));
        assert(!versions::map_of(ks).contains_key(k));
    }
    versions::lemma_lookup_absent(m, user, snap);
    table::law_get_round_trip(ks, t.bytes(), t.meta@, user, snap);
}

/// What a reader finds after a flush, when it found `before` before it: the same,
/// but that an empty text comes back as a deletion mark.
pub open spec fn same_after_flush(before: LookupView, after: LookupView) -> bool {
    after == before || (before is Found && after == before.stored())
}

/// Replacing the last layer in memory by the table that a flush writes of it
/// changes no answer at or above the watermark. When the flush writes nothing,
/// the layer can go.
pub proof fn law_flush_keeps_answers(
    newer: Seq<Versions>,
    es: Seq<Entry>,
    older: Seq<Versions>,
    watermark: u64,
    t: Option<SSTable>,
    user: Seq<char>,
    snap: u64,
)
    requires
        versions::ascending(es),
        watermark <= snap,
        match t {
            Some(t) => table::is_table(
                compaction::kept(None, es, false, watermark),
                t.bytes(),
                t.meta@,
            ),
            None => compaction::kept(None, es, false, watermark).len() == 0,
        },
    ensures
        same_after_flush(
            read(newer + (seq![versions::map_of(es)] + older), user, snap),
            read(
                newer + (match t {
                    Some(t) => seq![content(t)] + older,
                    None => older,
                }),
                user,
                snap,
            ),
        ),
{
    let m = versions::map_of(es);
    lemma_read_join(newer, seq![m] + older, user, snap);
    lemma_read_join(seq![m], older, user, snap);
    lemma_read_one(m, user, snap);
    match t {
        Some(t) => {
            lemma_read_join(newer, seq![content(t)] + older, user, snap);
            lemma_read_join(seq![content(t)], older, user, snap);
            lemma_read_one(content(t), user, snap);
            law_flushed_table_answers(es, watermark, t, user, snap);
        },
        None => {
            lemma_read_join(newer, older, user, snap);
            compaction::law_compaction_keeps_answers(es, false, watermark, user, snap);
            assert(compaction::kept(None, es, false, watermark) =~= Seq::<Entry>::empty());
            lemma_empty_layer(user, snap);
        },
    }
}

/// Freezing the table in memory changes no answer.
pub proof fn law_freeze_keeps_answers(
    ls: Seq<Versions>,
    user: Seq<char>,
    snap: u64,
)
    ensures
        read(seq![Map::<KeyView, ValueView>::empty()] + ls, user, snap) == read(ls, user, snap),
{
    let e = Map::<KeyView, ValueView>::empty();
    lemma_read_join(seq![e], ls, user, snap);
    lemma_read_one(e, user, snap);
    lemma_empty_layer(user, snap);
}

/// The layers once versions have been written to the first one.
pub open spec fn wrote(ls: Seq<Versions>, es: Seq<Entry>) -> Seq<Versions> {
    ls.update(0, wal::put_all(ls[0], es))
}

/// Whether entries are one commit: they share a sequence number and no user key
/// occurs twice.
pub open spec fn one_commit(es: Seq<Entry>, ts: u64) -> bool {
    &&& forall|i: int| 0 <= i < es.len() ==> (#[trigger] es[i]).0.seq == ts
    &&& forall|i: int, j: int|
        0 <= i < j < es.len() ==> (#[trigger] es[i]).0.user != (#[trigger] es[j]).0.user
}

/// What versions hold once entries have been written to them.
pub proof fn lemma_put_all_keys(m: Versions, es: Seq<Entry>, k: KeyView)
    ensures
        wal::put_all(m, es).contains_key(k) <==> m.contains_key(k) || versions::has_key(es, k),
        m.contains_key(k) ==> wal::put_all(m, es)[k] == m[k],
    decreases es.len(),
{
    if es.len() > 0 {
        let prev = es.drop_last();
        lemma_put_all_keys(m, prev, k);
        if versions::has_key(prev, k) {
            let i = choose|i: int| 0 <= i < prev.len() && (#[trigger] prev[i]).0 == k;
            assert(es[i].0 == k);
        }
        if versions::has_key(es, k) {
            let i = choose|i: int| 0 <= i < es.len() && (#[trigger] es[i]).0 == k;
            if i < prev.len() {
                assert(prev[i].0 == k);
            }
        }
        if es.last().0 == k {
            assert(es[es.len() - 1].0 == k);
        }
    }
}

/// An entry that is written where its key is new, and whose key comes once, is
/// there afterwards.
pub proof fn lemma_put_all_value(m: Versions, es: Seq<Entry>, i: int)
    requires
        0 <= i < es.len(),
        !m.contains_key(es[i].0),
        forall|j: int| 0 <= j < i ==> (#[trigger] es[j]).0 != es[i].0,
    ensures
        wal::put_all(m, es).contains_key(es[i].0),
        wal::put_all(m, es)[es[i].0] == es[i].1,
    decreases es.len(),
{
    let prev = es.drop_last();
    if i < prev.len() {
        assert(prev[i] == es[i]);
        assert forall|j: int| 0 <= j < i implies (#[trigger] prev[j]).0 != prev[i].0 by {
            assert(prev[j] == es[j]);
        }
        lemma_put_all_value(m, prev, i);
    } else {
        lemma_put_all_keys(m, prev, es[i].0);
        if versions::has_key(prev, es[i].0) {
            let j = choose|j: int| 0 <= j < prev.len() && (#[trigger] prev[j]).0 == es[i].0;
            assert(prev[j] == es[j]);
        }
    }
}

/// A reader below the sequence number of a commit sees nothing of it.
pub proof fn law_commit_is_invisible_below(
    ls: Seq<Versions>,
    es: Seq<Entry>,
    ts: u64,
    user: Seq<char>,
    snap: u64,
)
    requires
        ls.len() > 0,
        one_commit(es, ts),
        snap < ts,
    ensures
        read(wrote(ls, es), user, snap) == read(ls, user, snap),
{
    let (m, n) = (ls[0], wal::put_all(ls[0], es));
    assert forall|s: u64| s <= snap implies (#[trigger] n.contains_key(KeyView { user, seq: s })
        <==> m.contains_key(KeyView { user, seq: s })) by {
        let k = KeyView { user, seq: s };
        lemma_put_all_keys(m, es, k);
        if versions::has_key(es, k) {
            let i = choose|i: int| 0 <= i < es.len() && (#[trigger] es[i]).0 == k;
            assert(es[i].0.seq == ts);
        }
    }
    assert forall|s: u64| s <= snap && #[trigger] n.contains_key(KeyView { user, seq: s }) implies
        n[KeyView { user, seq: s }] == m[KeyView { user, seq: s }] by {
        lemma_put_all_keys(m, es, KeyView { user, seq: s });
    }
    versions::lemma_lookup_agree(n, m, user, snap);
    assert(wrote(ls, es).drop_first() =~= ls.drop_first());
}

/// A commit changes nothing under keys that it does not write.
pub proof fn law_commit_leaves_other_keys(
    ls: Seq<Versions>,
    es: Seq<Entry>,
    user: Seq<char>,
    snap: u64,
)
    requires
        ls.len() > 0,
        forall|i: int| 0 <= i < es.len() ==> (#[trigger] es[i]).0.user != user,
    ensures
        read(wrote(ls, es), user, snap) == read(ls, user, snap),
{
    let (m, n) = (ls[0], wal::put_all(ls[0], es));
    assert forall|s: u64| s <= snap implies (#[trigger] n.contains_key(KeyView { user, seq: s })
        <==> m.contains_key(KeyView { user, seq: s })) by {
        let k = KeyView { user, seq: s };
        lemma_put_all_keys(m, es, k);
        if versions::has_key(es, k) {
            let i = choose|i: int| 0 <= i < es.len() && (#[trigger] es[i]).0 == k;
            assert(es[i].0.user != user);
        }
    }
    assert forall|s: u64| s <= snap && #[trigger] n.contains_key(KeyView { user, seq: s }) implies
        n[KeyView { user, seq: s }] == m[KeyView { user, seq: s }] by {
        lemma_put_all_keys(m, es, KeyView { user, seq: s });
    }
    versions::lemma_lookup_agree(n, m, user, snap);
    assert(wrote(ls, es).drop_first() =~= ls.drop_first());
}

/// A reader at or above the sequence number of the newest commit sees each of its
/// writes.
pub proof fn law_commit_is_visible_above(
    ls: Seq<Versions>,
    es: Seq<Entry>,
    ts: u64,
    i: int,
    snap: u64,
)
    requires
        ls.len() > 0,
        one_commit(es, ts),
        0 <= i < es.len(),
        ts <= snap,
        forall|k: KeyView| #[trigger] ls[0].contains_key(k) ==> k.seq < ts,
    ensures
        read(wrote(ls, es), es[i].0.user, snap) == LookupView::of(es[i].1),
{
    let (m, n) = (ls[0], wal::put_all(ls[0], es));
    let user = es[i].0.user;
    assert(es[i].0 == KeyView { user, seq: ts });
    assert(!m.contains_key(es[i].0));
    assert forall|j: int| 0 <= j < i implies (#[trigger] es[j]).0 != es[i].0 by {
        assert(es[j].0.user != es[i].0.user);
    }
    lemma_put_all_value(m, es, i);
    assert(versions::newest(n, user, snap, ts)) by {
        assert forall|x: u64| ts < x <= snap implies !#[trigger] n.contains_key(
            KeyView { user, seq: x },
        ) by {
            let k = KeyView { user, seq: x };
            lemma_put_all_keys(m, es, k);
            if versions::has_key(es, k) {
                let j = choose|j: int| 0 <= j < es.len() && (#[trigger] es[j]).0 == k;
                assert(es[j].0.seq == ts);
            }
        }
    }
    versions::lemma_lookup_newest(n, user, snap, ts);
}

/// Writing a commit that is newer than everything keeps the layers in order.
pub proof fn law_commit_keeps_order(ls: Seq<Versions>, es: Seq<Entry>, ts: u64, top: u64)
    requires
        ls.len() > 0,
        recent_first(ls),
        at_most(ls, top),
        top < ts,
        one_commit(es, ts),
    ensures
        recent_first(wrote(ls, es)),
        at_most(wrote(ls, es), ts),
{
    let ns = wrote(ls, es);
    assert forall|i: int, k: KeyView|
        0 <= i < ns.len() && #[trigger] ns[i].contains_key(k) implies k.seq <= ts && (k.seq == ts
        || ls[i].contains_key(k)) by {
        if i == 0 {
            lemma_put_all_keys(ls[0], es, k);
            if versions::has_key(es, k) {
                let j = choose|j: int| 0 <= j < es.len() && (#[trigger] es[j]).0 == k;
                assert(es[j].0.seq == ts);
            }
        }
        if ls[i].contains_key(k) {
            assert(k.seq <= top);
        }
    }
    assert forall|i: int, j: int, a: KeyView, b: KeyView|
        0 <= i < j < ns.len() && #[trigger] ns[i].contains_key(a) && #[trigger] ns[j].contains_key(b)
            && a.user == b.user implies a.seq >= b.seq by {
        assert(ls[j].contains_key(b));
        if a.seq != ts {
            assert(ls[i].contains_key(a));
        }
    }
}

/// Freezing the table in memory keeps the layers in order.
pub proof fn law_freeze_keeps_order(ls: Seq<Versions>, top: u64)
    requires
        recent_first(ls),
        at_most(ls, top),
    ensures
        recent_first(seq![Map::<KeyView, ValueView>::empty()] + ls),
        at_most(seq![Map::<KeyView, ValueView>::empty()] + ls, top),
{
    let ns = seq![Map::<KeyView, ValueView>::empty()] + ls;
    assert forall|i: int, k: KeyView| 0 <= i < ns.len() && #[trigger] ns[i].contains_key(k) implies
        i > 0 && k.seq <= top by {
        if i > 0 {
            assert(ns[i] == ls[i - 1]);
        }
    }
    assert forall|i: int, j: int, a: KeyView, b: KeyView|
        0 <= i < j < ns.len() && #[trigger] ns[i].contains_key(a) && #[trigger] ns[j].contains_key(b)
            && a.user == b.user implies a.seq >= b.seq by {
        assert(ls[i - 1].contains_key(a) && ls[j - 1].contains_key(b));
    }
}

/// A flush keeps the layers in order.
pub proof fn law_flush_keeps_order(
    newer: Seq<Versions>,
    es: Seq<Entry>,
    older: Seq<Versions>,
    watermark: u64,
    t: Option<SSTable>,
    top: u64,
)
    requires
        versions::ascending(es),
        recent_first(newer + (seq![versions::map_of(es)] + older)),
        at_most(newer + (seq![versions::map_of(es)] + older), top),
        t matches Some(t) ==> table::is_table(
            compaction::kept(None, es, false, watermark),
            t.bytes(),
            t.meta@,
        ),
    ensures
        ({
            let after = newer + (match t {
                Some(t) => seq![content(t)] + older,
                None => older,
            });
            recent_first(after) && at_most(after, top)
        }),
{
    let before = newer + (seq![versions::map_of(es)] + older);
    let after = newer + (match t {
        Some(t) => seq![content(t)] + older,
        None => older,
    });
    let n = newer.len() as int;
    let was = |i: int|
        if t is None && i >= n {
            i + 1
        } else {
            i
        };
    assert forall|i: int, k: KeyView|
        0 <= i < after.len() && #[trigger] after[i].contains_key(k) implies 0 <= was(i)
        < before.len() && before[was(i)].contains_key(k) by {
        if t is Some && i == n {
            let t = t->0;
            let ks = compaction::kept(None, es, false, watermark);
            lemma_content(ks, t);
            lemma_stored_versions(ks);
            assert(versions::map_of(ks).contains_key(k));
            compaction::lemma_kept_versions(es, false, watermark, k);
        } else {
            assert(after[i] == before[was(i)]);
        }
    }
    assert forall|i: int, k: KeyView|
        0 <= i < after.len() && #[trigger] after[i].contains_key(k) implies k.seq <= top by {
        assert(before[was(i)].contains_key(k));
    }
    assert forall|i: int, j: int, a: KeyView, b: KeyView|
        0 <= i < j < after.len() && #[trigger] after[i].contains_key(a)
            && #[trigger] after[j].contains_key(b) && a.user == b.user implies a.seq >= b.seq by {
        assert(before[was(i)].contains_key(a) && before[was(j)].contains_key(b));
        assert(was(i) < was(j));
    }
}

/// The footer of a table names a sequence number that no version in it exceeds.
pub proof fn law_footer_bounds_sequences(t: SSTable, k: KeyView)
    requires
        sound(t),
        content(t).contains_key(k),
    ensures
        k.seq <= t.meta@.footer.largest_seq,
{
    let es = choose|es: Seq<Entry>| #[trigger] table::is_table(es, t.bytes(), t.meta@);
    lemma_content(es, t);
    lemma_stored_versions(es);
    versions::lemma_map_of_keys(es);
    assert(versions::map_of(es).contains_key(k));
    layout::lemma_written(es);
    layout::lemma_largest(es);
    let i = choose|i: int| 0 <= i < es.len() && (#[trigger] es[i]).0 == k;
    assert(es[i].0.seq <= layout::largest(es));
}

/// No table is above the highest sequence number of tables.
pub proof fn lemma_highest_seq(ts: Seq<SSTable>)
    ensures
        forall|i: int|
            0 <= i < ts.len() ==> (#[trigger] ts[i]).meta@.footer.largest_seq
                <= crate::storage::storage::highest_seq(ts),
    decreases ts.len(),
{
    if ts.len() > 0 {
        lemma_highest_seq(ts.drop_last());
        assert forall|i: int| 0 <= i < ts.len() implies (
        #[trigger] ts[i]).meta@.footer.largest_seq <= crate::storage::storage::highest_seq(ts) by {
            if i < ts.len() - 1 {
                assert(ts.drop_last()[i] == ts[i]);
            }
        }
    }
}

/// No version in tables that were written whole is above the highest sequence
/// number of the tables.
pub proof fn law_tables_bound_sequences(ts: Seq<SSTable>)
    requires
        all_sound(ts),
    ensures
        at_most(contents(ts), crate::storage::storage::highest_seq(ts)),
{
    lemma_highest_seq(ts);
    let ls = contents(ts);
    assert forall|i: int, k: KeyView| 0 <= i < ls.len() && #[trigger] ls[i].contains_key(k) implies
        k.seq <= crate::storage::storage::highest_seq(ts) by {
        assert(sound(ts[i]));
        law_footer_bounds_sequences(ts[i], k);
    }
}

/// What a file gives back for writes has the same keys.
pub proof fn lemma_stored_writes(es: Seq<Entry>)
    ensures
        forall|k: KeyView| #[trigger]
            wal::put_all(Map::empty(), layout::stored(es)).contains_key(k) <==> wal::put_all(
                Map::empty(),
                es,
            ).contains_key(k),
        forall|k: KeyView| #[trigger]
            wal::put_all(Map::empty(), layout::stored(es)).contains_key(k) ==> wal::put_all(
                Map::empty(),
                layout::stored(es),
            )[k] == wal::put_all(Map::empty(), es)[k].stored(),
    decreases es.len(),
{
    if es.len() > 0 {
        let prev = es.drop_last();
        lemma_stored_writes(prev);
        assert(layout::stored(es).drop_last() =~= layout::stored(prev));
        assert(layout::stored(es).last() == layout::stored_entry(es.last()));
    }
}

/// Versions whose values are what a file gives back answer what a file gives back
/// for the answer.
proof fn lemma_stored_map(a: Versions, b: Versions, user: Seq<char>, snap: u64)
    requires
        forall|k: KeyView| #[trigger] a.contains_key(k) <==> b.contains_key(k),
        forall|k: KeyView| #[trigger] a.contains_key(k) ==> a[k] == b[k].stored(),
    ensures
        versions::lookup(a, user, snap) == versions::lookup(b, user, snap).stored(),
{
    versions::lemma_lookup_absent(a, user, snap);
    versions::lemma_lookup_absent(b, user, snap);
    if exists|s: u64| versions::newest(b, user, snap, s) {
        let s = choose|s: u64| versions::newest(b, user, snap, s);
        assert(a.contains_key(KeyView { user, seq: s }));
        assert(versions::newest(a, user, snap, s)) by {
            assert forall|x: u64| s < x <= snap implies !#[trigger] a.contains_key(
                KeyView { user, seq: x },
            ) by {
                assert(!b.contains_key(KeyView { user, seq: x }));
            }
        }
        versions::lemma_lookup_newest(a, user, snap, s);
        versions::lemma_lookup_newest(b, user, snap, s);
    } else {
        assert forall|s: u64| s <= snap implies !#[trigger] a.contains_key(
            KeyView { user, seq: s },
        ) by {
            assert(!b.contains_key(KeyView { user, seq: s }));
        }
    }
}

/// The tables that hold these writes.
pub open spec fn tables_of_writes(ws: Seq<Seq<Entry>>) -> Seq<Versions> {
    Seq::new(ws.len(), |i: int| wal::put_all(Map::empty(), ws[i]))
}

/// What files give back for writes.
pub open spec fn all_stored(ws: Seq<Seq<Entry>>) -> Seq<Seq<Entry>> {
    Seq::new(ws.len(), |i: int| layout::stored(ws[i]))
}

/// Whether versions are these writes, as they were made or as a log gave them back.
pub open spec fn holds(m: Versions, es: Seq<Entry>) -> bool {
    m == wal::put_all(Map::empty(), es) || m == wal::put_all(Map::empty(), layout::stored(es))
}

/// Whether each layer holds these writes.
pub open spec fn all_hold(ls: Seq<Versions>, ws: Seq<Seq<Entry>>) -> bool {
    ls.len() == ws.len() && forall|i: int| 0 <= i < ls.len() ==> holds(#[trigger] ls[i], ws[i])
}

/// Tables that are made again from their logs answer as the tables did that wrote
/// the logs, but that an empty text comes back as a deletion mark.
pub proof fn law_replayed_tables_answer(
    ls: Seq<Versions>,
    ws: Seq<Seq<Entry>>,
    user: Seq<char>,
    snap: u64,
)
    requires
        all_hold(ls, ws),
    ensures
        read(tables_of_writes(all_stored(ws)), user, snap) == read(ls, user, snap).stored(),
    decreases ws.len(),
{
    if ws.len() > 0 {
        let (rest, more) = (ws.drop_first(), ls.drop_first());
        assert(all_hold(more, rest)) by {
            assert forall|i: int| 0 <= i < more.len() implies holds(#[trigger] more[i], rest[i]) by {
                assert(holds(ls[i + 1], ws[i + 1]));
            }
        }
        law_replayed_tables_answer(more, rest, user, snap);
        assert(holds(ls[0], ws[0]));
        lemma_stored_writes(ws[0]);
        lemma_stored_map(
            wal::put_all(Map::empty(), layout::stored(ws[0])),
            ls[0],
            user,
            snap,
        );
        assert(tables_of_writes(all_stored(ws)).drop_first() =~= tables_of_writes(
            all_stored(rest),
        ));
    }
}

/// Opening the store again changes no answer: the tables in memory come back from
/// their logs behind an empty table, and the tables on disk are the same.
pub proof fn law_reopening_keeps_answers(
    ls: Seq<Versions>,
    ws: Seq<Seq<Entry>>,
    disk: Seq<Versions>,
    user: Seq<char>,
    snap: u64,
)
    requires
        all_hold(ls, ws),
    ensures
        same_after_flush(
            read(ls + disk, user, snap),
            read(
                seq![Map::<KeyView, ValueView>::empty()] + tables_of_writes(all_stored(ws)) + disk,
                user,
                snap,
            ),
        ),
{
    let again = tables_of_writes(all_stored(ws));
    let e = Map::<KeyView, ValueView>::empty();
    lemma_read_join(ls, disk, user, snap);
    assert(seq![e] + again + disk =~= seq![e] + (again + disk));
    law_freeze_keeps_answers(again + disk, user, snap);
    lemma_read_join(again, disk, user, snap);
    law_replayed_tables_answer(ls, ws, user, snap);
}

/// A reader sees the same at every sequence number from the highest version on.
pub proof fn lemma_read_top(ls: Seq<Versions>, top: u64, user: Seq<char>, snap: u64)
    requires
        at_most(ls, top),
        top <= snap,
    ensures
        read(ls, user, snap) == read(ls, user, top),
    decreases ls.len(),
{
    if ls.len() > 0 {
        let m = ls[0];
        let rest = ls.drop_first();
        assert(at_most(rest, top)) by {
            assert forall|i: int, k: KeyView|
                0 <= i < rest.len() && #[trigger] rest[i].contains_key(k) implies k.seq <= top by {
                assert(ls[i + 1].contains_key(k));
            }
        }
        lemma_read_top(rest, top, user, snap);
        versions::lemma_lookup_absent(m, user, snap);
        versions::lemma_lookup_absent(m, user, top);
        if exists|s: u64| versions::newest(m, user, top, s) {
            let s = choose|s: u64| versions::newest(m, user, top, s);
            assert(versions::newest(m, user, snap, s)) by {
                assert forall|x: u64| s < x <= snap implies !#[trigger] m.contains_key(
                    KeyView { user, seq: x },
                ) by {
                    if m.contains_key(KeyView { user, seq: x }) {
                        assert(ls[0].contains_key(KeyView { user, seq: x }));
                    }
                }
            }
            versions::lemma_lookup_newest(m, user, snap, s);
            versions::lemma_lookup_newest(m, user, top, s);
        } else {
            assert forall|s: u64| s <= snap implies !#[trigger] m.contains_key(
                KeyView { user, seq: s },
            ) by {
                if m.contains_key(KeyView { user, seq: s }) {
                    assert(ls[0].contains_key(KeyView { user, seq: s }));
                }
            }
        }
    }
}

/// The versions of each of these lists of entries.
pub open spec fn maps_of(ss: Seq<Seq<Entry>>) -> Seq<Versions> {
    Seq::new(ss.len(), |i: int| versions::map_of(ss[i]))
}

proof fn lemma_layered_together(ss: Seq<Seq<Entry>>)
    ensures
        merge::layered(ss) == together(maps_of(ss)),
    decreases ss.len(),
{
    if ss.len() > 0 {
        lemma_layered_together(ss.drop_first());
        assert(maps_of(ss).drop_first() =~= maps_of(ss.drop_first()));
    }
}

/// Compacting tables into one changes no answer that a reader at or above the
/// watermark gets. Where deletion marks stay, it does not even change whether such
/// a mark is found.
pub proof fn law_compaction_of_tables_keeps_answers(
    ss: Seq<Seq<Entry>>,
    drop_tombstone: bool,
    watermark: u64,
    user: Seq<char>,
    snap: u64,
)
    requires
        merge::all_ascending(ss),
        recent_first(maps_of(ss)),
        watermark <= snap,
    ensures
        ({
            let before = read(maps_of(ss), user, snap);
            let after = versions::lookup(
                versions::map_of(
                    compaction::kept(None, merge::merge(ss), drop_tombstone, watermark),
                ),
                user,
                snap,
            );
            &&& after.answer() == before.answer()
            &&& !drop_tombstone ==> after == before
        }),
{
    merge::law_merge(ss);
    lemma_layered_together(ss);
    law_layers_answer_as_one(maps_of(ss), user, snap);
    compaction::law_compaction_keeps_answers(
        merge::merge(ss),
        drop_tombstone,
        watermark,
        user,
        snap,
    );
}

/// Whether two lists of tables have the same bytes.
pub open spec fn same_files(ts: Seq<SSTable>, us: Seq<SSTable>) -> bool {
    &&& us.len() == ts.len()
    &&& forall|i: int| 0 <= i < ts.len() ==> (#[trigger] us[i]).bytes() == ts[i].bytes()
}

/// Tables that are opened from the files of other tables have the same content, and
/// were written whole if those were.
pub proof fn law_same_files(ts: Seq<SSTable>, us: Seq<SSTable>)
    requires
        same_files(ts, us),
        forall|i: int|
            0 <= i < us.len() ==> meta::parsed_meta((#[trigger] us[i]).bytes()) == Ok::<
                MetaView,
                Fault,
            >(us[i].meta@),
    ensures
        contents(us) == contents(ts),
        all_sound(ts) ==> all_sound(us),
{
    assert(contents(us) =~= contents(ts));
    if all_sound(ts) {
        assert forall|i: int| 0 <= i < us.len() implies sound(#[trigger] us[i]) by {
            let t = ts[i];
            assert(sound(t));
            let es = choose|es: Seq<Entry>| #[trigger] table::is_table(es, t.bytes(), t.meta@);
            table::law_meta_round_trip(es, t.bytes(), t.meta@);
            assert(us[i].bytes() == t.bytes());
            assert(table::is_table(es, us[i].bytes(), us[i].meta@));
        }
    }
}

/// Whether all keys of these writes, log by log, are keys of those.
pub open spec fn parts(ps: Seq<Seq<Entry>>, ws: Seq<Seq<Entry>>) -> bool {
    &&& ps.len() == ws.len()
    &&& forall|i: int, k: KeyView|
        0 <= i < ps.len() && #[trigger] versions::has_key(ps[i], k) ==> versions::has_key(ws[i], k)
}

/// The first writes of each log have only keys that all of them have.
pub proof fn lemma_parts(ps: Seq<Seq<Entry>>, ws: Seq<Seq<Entry>>)
    requires
        ps.len() == ws.len(),
        forall|i: int|
            0 <= i < ps.len() ==> (#[trigger] ps[i]).len() <= ws[i].len() && ps[i] == ws[i].take(
                ps[i].len() as int,
            ),
    ensures
        parts(ps, ws),
{
    assert forall|i: int, k: KeyView|
        0 <= i < ps.len() && #[trigger] versions::has_key(
            ps[i],
            k,
        ) implies versions::has_key(ws[i], k) by {
        let j = choose|j: int| 0 <= j < ps[i].len() && (#[trigger] ps[i][j]).0 == k;
        assert(ps[i] == ws[i].take(ps[i].len() as int));
        assert(ws[i][j].0 == k);
    }
}

/// The keys of a table that was made again are keys of the table that wrote the log.
proof fn lemma_part_keys(l: Versions, w: Seq<Entry>, p: Seq<Entry>, k: KeyView)
    requires
        holds(l, w),
        versions::has_key(p, k) ==> versions::has_key(w, k),
    ensures
        wal::put_all(Map::empty(), layout::stored(p)).contains_key(k) ==> l.contains_key(k),
{
    lemma_stored_writes(p);
    lemma_stored_writes(w);
    lemma_put_all_keys(Map::empty(), p, k);
    lemma_put_all_keys(Map::empty(), w, k);
    assert(wal::put_all(Map::empty(), layout::stored(p)).contains_key(k) <==> wal::put_all(
        Map::empty(),
        p,
    ).contains_key(k));
    assert(wal::put_all(Map::empty(), layout::stored(w)).contains_key(k) <==> wal::put_all(
        Map::empty(),
        w,
    ).contains_key(k));
}

/// Opening the store again keeps the layers in order, whatever part of the writes the
/// logs give back: no layer holds a newer version of a key than an earlier one.
pub proof fn law_reopening_keeps_order(
    ls: Seq<Versions>,
    ws: Seq<Seq<Entry>>,
    ps: Seq<Seq<Entry>>,
    disk: Seq<Versions>,
)
    requires
        all_hold(ls, ws),
        parts(ps, ws),
        recent_first(ls + disk),
    ensures
        recent_first(
            seq![Map::<KeyView, ValueView>::empty()] + tables_of_writes(all_stored(ps)) + disk,
        ),
{
    let old = ls + disk;
    let again = tables_of_writes(all_stored(ps));
    let new = seq![Map::<KeyView, ValueView>::empty()] + again + disk;
    assert forall|i: int, k: KeyView|
        0 <= i < new.len() && #[trigger] new[i].contains_key(k) implies i > 0 && old[i
        - 1].contains_key(k) by {
        if 0 < i <= ps.len() {
            assert(new[i] == again[i - 1]);
            assert(holds(ls[i - 1], ws[i - 1]));
            assert(versions::has_key(ps[i - 1], k) ==> versions::has_key(ws[i - 1], k));
            lemma_part_keys(ls[i - 1], ws[i - 1], ps[i - 1], k);
            assert(old[i - 1] == ls[i - 1]);
        } else if i > ps.len() {
            assert(new[i] == old[i - 1]);
        }
    }
    assert forall|i: int, j: int, a: KeyView, b: KeyView|
        0 <= i < j < new.len() && #[trigger] new[i].contains_key(a) && #[trigger] new[j].contains_key(
            b,
        ) && a.user == b.user implies a.seq >= b.seq by {
        assert(old[i - 1].contains_key(a));
        assert(old[j - 1].contains_key(b));
    }
}

/// What layers answer is the newest version that the reader may see: where no version
/// of the key that the reader may see is newer than the one in layer `i`, and no
/// earlier layer has that version, its value is the answer.
pub proof fn law_newest_version_answers(
    ls: Seq<Versions>,
    user: Seq<char>,
    snap: u64,
    i: int,
    s: u64,
)
    requires
        0 <= i < ls.len(),
        s <= snap,
        ls[i].contains_key(KeyView { user, seq: s }),
        forall|j: int, x: u64|
            0 <= j < ls.len() && s < x <= snap ==> !#[trigger] ls[j].contains_key(
                KeyView { user, seq: x },
            ),
        forall|j: int| 0 <= j < i ==> !(#[trigger] ls[j]).contains_key(KeyView { user, seq: s }),
        recent_first(ls),
    ensures
        read(ls, user, snap) == (match ls[i][KeyView { user, seq: s }] {
            ValueView::Put(t) => LookupView::Found(t),
            ValueView::Delete => LookupView::Deleted,
        }),
    decreases ls.len(),
{
    let k = KeyView { user, seq: s };
    if i == 0 {
        assert forall|x: u64| s < x <= snap implies !#[trigger] ls[0].contains_key(
            KeyView { user, seq: x },
        ) by {}
        versions::law_lookup(ls[0], user, snap);
    } else {
        let rest = ls.drop_first();
        assert forall|x: u64| x <= snap implies !#[trigger] ls[0].contains_key(
            KeyView { user, seq: x },
        ) by {
            if ls[0].contains_key(KeyView { user, seq: x }) {
                assert(ls[i].contains_key(k));
                assert(x >= s);
                if x == s {
                    assert(ls[0].contains_key(k));
                }
            }
        }
        versions::law_lookup(ls[0], user, snap);
        assert forall|j: int, x: u64| 0 <= j < rest.len() && s < x <= snap implies !#[trigger]
        rest[j].contains_key(KeyView { user, seq: x }) by {
            assert(rest[j] == ls[j + 1]);
        }
        assert forall|j: int| 0 <= j < i - 1 implies !(#[trigger] rest[j]).contains_key(k) by {
            assert(rest[j] == ls[j + 1]);
        }
        assert forall|a: int, b: int, p: KeyView, q: KeyView|
            0 <= a < b < rest.len() && #[trigger] rest[a].contains_key(p)
                && #[trigger] rest[b].contains_key(q) && p.user == q.user implies p.seq
            >= q.seq by {
            assert(ls[a + 1].contains_key(p) && ls[b + 1].contains_key(q));
        }
        law_newest_version_answers(rest, user, snap, i - 1, s);
    }
}

/// Layers in which no version of the key may be seen answer nothing.
pub proof fn law_no_version_answers_nothing(ls: Seq<Versions>, user: Seq<char>, snap: u64)
    requires
        forall|j: int, x: u64|
            0 <= j < ls.len() && x <= snap ==> !#[trigger] ls[j].contains_key(
                KeyView { user, seq: x },
            ),
    ensures
        read(ls, user, snap) is Absent,
    decreases ls.len(),
{
    if ls.len() > 0 {
        let rest = ls.drop_first();
        assert forall|x: u64| x <= snap implies !#[trigger] ls[0].contains_key(
            KeyView { user, seq: x },
        ) by {}
        versions::law_lookup(ls[0], user, snap);
        assert forall|j: int, x: u64| 0 <= j < rest.len() && x <= snap implies !#[trigger]
        rest[j].contains_key(KeyView { user, seq: x }) by {
            assert(rest[j] == ls[j + 1]);
        }
        law_no_version_answers_nothing(rest, user, snap);
    }
}

/// What is the same after a flush: a text that is not empty is found as before, an empty
/// one is found or deleted, a deletion mark stays deleted, and what is absent stays
/// absent.
pub proof fn law_same_after_flush(a: LookupView, b: LookupView)
    requires
        same_after_flush(a, b),
    ensures
        a matches LookupView::Found(s) ==> s.len() > 0 ==> b == a,
        a matches LookupView::Found(s) ==> b is Found || b is Deleted,
        a is Deleted ==> b is Deleted,
        a is Absent ==> b is Absent,
{
}

} // verus!
