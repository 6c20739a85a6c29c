//! Reading the entries of tables in order, and writing what is needed of them
//! into one table.

use vstd::prelude::*;
use vstd::utf8::*;

use crate::common::error::{DbResult, Fault};
use crate::common::value::ValueView;
use crate::common::versions;
use crate::common::versions::Entry;
use crate::sstable;
use crate::sstable::layout;
use crate::sstable::meta::{MetaView, SSTableMeta};
use crate::sstable::scan::compaction::{CompactionScan, CompactionView};
use crate::sstable::scan::merge::MergeScan;
use crate::sstable::scan::table::{ScanView, TableScan};
use crate::sstable::writer::SSTableWriter;

pub mod compaction;
pub mod merge;
pub mod table;

verus! {

/// What compacting tables gives: the entries that a table of them holds, or the
/// entries that were read before the fault that ended it, and that fault.
pub open spec fn compacted(
    scans: Seq<ScanView>,
    drop_tombstone: bool,
    watermark: u64,
) -> (Seq<Entry>, Option<Fault>) {
    match merge::opened(scans) {
        Ok(sources) => match CompactionView::opened(sources, drop_tombstone, watermark) {
            Ok(v) => v.drained(),
            Err(f) => (Seq::empty(), Some(f)),
        },
        Err(f) => (Seq::empty(), Some(f)),
    }
}

/// Compacting tables that can all be read gives the entries of their merge that
/// readers at or above the watermark need.
pub proof fn law_compacted(scans: Seq<ScanView>, drop_tombstone: bool, watermark: u64)
    ensures
        merge::good_rests(merge::all_of(scans)) matches Some(ss) ==> compacted(
            scans,
            drop_tombstone,
            watermark,
        ) == (
            compaction::kept(None, merge::merge(ss), drop_tombstone, watermark),
            None::<Fault>,
        ),
{
    merge::lemma_opened(scans);
    if let Ok(sources) = merge::opened(scans) {
        compaction::lemma_opened_kept(sources, drop_tombstone, watermark);
    }
}

/// What compaction keeps of small entries in key order makes a table.
pub proof fn law_small_tables_are_compacted(es: Seq<Entry>, drop_tombstone: bool, watermark: u64)
    requires
        versions::ascending(es),
        2 * versions::volume(es) <= 0xFFFF_FFFF,
        forall|i: int|
            0 <= i < es.len() ==> 4096 + 12 + encode_utf8((#[trigger] es[i]).0.user).len() + (
            match es[i].1 {
                ValueView::Put(s) => encode_utf8(s).len(),
                ValueView::Delete => 0,
            }) <= 65535,
    ensures
        layout::first_refusal(compaction::kept(None, es, drop_tombstone, watermark)) is None,
        layout::written(
            compaction::kept(None, es, drop_tombstone, watermark),
        ).closed().describable(),
{
    let ks = compaction::kept(None, es, drop_tombstone, watermark);
    compaction::law_compaction_sorted(es, drop_tombstone, watermark);
    compaction::lemma_kept_volume(None, es, drop_tombstone, watermark);
    assert forall|x: int| 0 <= x < ks.len() implies 4096 + 12 + encode_utf8(
        (#[trigger] ks[x]).0.user,
    ).len() + (match ks[x].1 {
        ValueView::Put(s) => encode_utf8(s).len(),
        ValueView::Delete => 0,
    }) <= 65535 by {
        assert(es.contains(ks[x]));
        let i = choose|i: int| 0 <= i < es.len() && es[i] == ks[x];
        assert(es[i] == ks[x]);
    }
    layout::law_small_tables_are_built(ks);
}

/// Merges tables, given newest first, into one that holds what readers at or
/// above the watermark need. Returns nothing when nothing is left.
pub fn compact(
    out: &str,
    inputs: Vec<TableScan>,
    drop_tombstone: bool,
    read_ts_watermark: u64,
) -> (r: DbResult<Option<(SSTableMeta, Vec<u8>)>>)
    requires
        forall|i: int| 0 <= i < inputs@.len() ==> (#[trigger] inputs@[i]).wf(),
    ensures
        match compacted(merge::views(inputs@), drop_tombstone, read_ts_watermark) {
            (es, None) => sstable::built(r, out@, es),
            (es, Some(f)) => r matches Err(e) && if layout::accepted(es) {
                e.reports(f)
            } else {
                sstable::built(r, out@, es)
            },
        },
        merge::good_rests(merge::all_of(merge::views(inputs@))) matches Some(ss) ==> sstable::built(
            r,
            out@,
            compaction::kept(None, merge::merge(ss), drop_tombstone, read_ts_watermark),
        ),
        (merge::good_rests(merge::all_of(merge::views(inputs@))) matches Some(ss)
            && versions::ascending(merge::merge(ss)) && versions::are_small(merge::merge(ss)))
            ==> r is Ok,
{
    let r = compact_scans(out, inputs, drop_tombstone, read_ts_watermark);
    proof {
        if let Some(ss) = merge::good_rests(merge::all_of(merge::views(inputs@))) {
            if versions::ascending(merge::merge(ss)) && versions::are_small(merge::merge(ss)) {
                law_small_tables_are_compacted(merge::merge(ss), drop_tombstone, read_ts_watermark);
            }
        }
    }
    r
}

/// Merges tables into one, entry by entry.
fn compact_scans(
    out: &str,
    inputs: Vec<TableScan>,
    drop_tombstone: bool,
    read_ts_watermark: u64,
) -> (r: DbResult<Option<(SSTableMeta, Vec<u8>)>>)
    requires
        forall|i: int| 0 <= i < inputs@.len() ==> (#[trigger] inputs@[i]).wf(),
    ensures
        match compacted(merge::views(inputs@), drop_tombstone, read_ts_watermark) {
            (es, None) => sstable::built(r, out@, es),
            (es, Some(f)) => r matches Err(e) && if layout::accepted(es) {
                e.reports(f)
            } else {
                sstable::built(r, out@, es)
            },
        },
        merge::good_rests(merge::all_of(merge::views(inputs@))) matches Some(ss) ==> sstable::built(
            r,
            out@,
            compaction::kept(None, merge::merge(ss), drop_tombstone, read_ts_watermark),
        ),
{
    proof {
        law_compacted(merge::views(inputs@), drop_tombstone, read_ts_watermark);
    }
    let ghost (all, fault) = compacted(merge::views(inputs@), drop_tombstone, read_ts_watermark);
    let m = match MergeScan::new(inputs) {
        Ok(m) => m,
        Err(e) => {
            return Err(e);
        },
    };
    let mut c = match CompactionScan::new(m, drop_tombstone, read_ts_watermark) {
        Ok(c) => c,
        Err(e) => {
            return Err(e);
        },
    };
    let mut w = SSTableWriter::create(out);
    let ghost mut done: Seq<Entry> = Seq::empty();
    assert(done + c@.drained().0 =~= all);
    loop
        invariant_except_break
            all == done + c@.drained().0,
            fault == c@.drained().1,
        invariant
            c.wf(),
            w.wf(),
            w.target() == out@,
            w@ == layout::written(done),
            layout::accepted(done),
            done.len() == w@.entries,
            (all, fault) == compacted(merge::views(inputs@), drop_tombstone, read_ts_watermark),
            merge::good_rests(merge::all_of(merge::views(inputs@))) matches Some(ss) ==> (
                all,
                fault,
            ) == (
                compaction::kept(None, merge::merge(ss), drop_tombstone, read_ts_watermark),
                None::<Fault>,
            ),
        ensures
            all == done,
            fault is None,
        decreases c@.budget(),
    {
        let ghost before = c@;
        proof {
            compaction::lemma_next_smaller(before);
        }
        match c.next() {
            Err(e) => {
                assert(all =~= done);
                return Err(e);
            },
            Ok(None) => {
                assert(all =~= done);
                break;
            },
            Ok(Some((k, v))) => {
                let ghost next = done.push((k@, v@));
                assert(next.drop_last() =~= done);
                assert(all =~= next + c@.drained().0);
                match w.add(&k, &v) {
                    Err(e) => {
                        proof {
                            layout::lemma_first_refusal(done);
                            assert(all.take(next.len() as int) =~= next);
                            layout::lemma_refused_early(all, next.len() as int);
                            layout::lemma_first_refusal(all);
                        }
                        return Err(e);
                    },
                    Ok(_) => {},
                }
                proof {
                    done = next;
                }
            },
        }
    }
    let r = w.finish();
    proof {
        sstable::lemma_built(r, out@, done);
    }
    r
}

/// Compacting tables that were written whole reads all their entries: what it keeps of
/// their merge is what the new table holds.
pub proof fn law_compaction_reads_whole_tables(
    tables: Seq<Seq<Entry>>,
    files: Seq<Seq<u8>>,
    metas: Seq<MetaView>,
    scans: Seq<ScanView>,
    drop_tombstone: bool,
    watermark: u64,
)
    requires
        tables.len() == files.len() == metas.len() == scans.len(),
        forall|i: int|
            0 <= i < tables.len() ==> sstable::table::is_table(
                #[trigger] tables[i],
                files[i],
                metas[i],
            ),
        forall|i: int|
            0 <= i < tables.len() ==> ScanView::opened(files[i]) == Ok::<ScanView, Fault>(
                #[trigger] scans[i],
            ),
    ensures
        compacted(scans, drop_tombstone, watermark) == (
            compaction::kept(
                None,
                merge::merge(Seq::new(tables.len(), |i: int| layout::stored(tables[i]))),
                drop_tombstone,
                watermark,
            ),
            None::<Fault>,
        ),
{
    let all = merge::all_of(scans);
    let ss = Seq::new(tables.len(), |i: int| layout::stored(tables[i]));
    assert forall|i: int| 0 <= i < all.len() implies #[trigger] all[i] == Ok::<
        Seq<Entry>,
        Fault,
    >(ss[i]) by {
        assert(sstable::table::is_table(tables[i], files[i], metas[i]));
        assert(ScanView::opened(files[i]) == Ok::<ScanView, Fault>(scans[i]));
        sstable::table::law_scan_round_trip(tables[i], files[i], metas[i]);
    }
    merge::law_all_sources_are_read(all);
    assert(merge::good_rests(all)->0 =~= ss);
    law_compacted(scans, drop_tombstone, watermark);
}

/// Compaction passes over no table that cannot be read: when one of them cannot be read
/// to its end, compaction reports a fault and gives no table.
pub proof fn law_unreadable_tables_are_not_compacted(
    scans: Seq<ScanView>,
    drop_tombstone: bool,
    watermark: u64,
    i: int,
)
    requires
        0 <= i < scans.len(),
        scans[i].all() is Err,
    ensures
        compacted(scans, drop_tombstone, watermark).1 is Some,
{
    let all = merge::all_of(scans);
    assert(all[i] is Err);
    merge::lemma_opened(scans);
    if let Ok(sources) = merge::opened(scans) {
        assert(merge::merged(sources) is None);
        merge::lemma_next(sources);
        if let Ok(v) = CompactionView::opened(sources, drop_tombstone, watermark) {
            compaction::lemma_drained_unreadable(v);
        }
    }
}

} // verus!
