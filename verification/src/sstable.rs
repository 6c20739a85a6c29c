//! Sorted tables: immutable files of versions.

use vstd::prelude::*;

use crate::common::error::DbResult;
use crate::common::key::Key;
use crate::common::value::Value;
use crate::common::versions;
use crate::common::versions::Entry;
use crate::sstable::meta::SSTableMeta;
use crate::sstable::writer::{Refusal, SSTableWriter};

pub mod bloom;
pub mod checksum;
pub mod cursor;
pub mod encode;
pub mod footer;
pub mod index;
pub mod layout;
pub mod meta;
pub mod scan;
pub mod table;
pub mod writer;

verus! {

/// Bytes before the entries of a block: a checksum of four bytes and the length
/// of the entries in two.
pub const BLOCK_HEADER: usize = 6;

/// Whether `r` is what writing `es` into a table at `path` gives: the table, or
/// nothing when there are no entries, or an error when a writer does not take
/// them.
pub open spec fn built(
    r: DbResult<Option<(SSTableMeta, Vec<u8>)>>,
    path: Seq<char>,
    es: Seq<Entry>,
) -> bool {
    match r {
        Ok(None) => es.len() == 0,
        Ok(Some((m, file))) => {
            &&& table::is_table(es, file@, m@)
            &&& m.path@ == path
            &&& m.wf()
        },
        Err(e) => match layout::first_refusal(es) {
            Some(Refusal::Order(k, last)) => e.is_value(writer::order_message(k, last)),
            Some(Refusal::Size) => e is InvalidInt,
            None => es.len() > 0 && !layout::written(es).closed().describable() && e is InvalidInt,
        },
    }
}

/// Completing the table of a writer that has taken all entries builds it.
pub proof fn lemma_built(
    r: DbResult<Option<(SSTableMeta, Vec<u8>)>>,
    path: Seq<char>,
    es: Seq<Entry>,
)
    requires
        layout::accepted(es),
        es.len() <= u64::MAX,
        writer::finished(r, layout::written(es), path),
    ensures
        built(r, path, es),
{
    layout::lemma_first_refusal(es);
    layout::lemma_written(es);
    if es.len() > 0 {
        layout::lemma_blocks(es);
    }
}

/// Writes entries into a table at `path`.
pub fn build_from_iter(path: &str, entries: &Vec<(Key, Value)>) -> (r: DbResult<
    Option<(SSTableMeta, Vec<u8>)>,
>)
    ensures
        built(r, path@, scan::table::pairs(entries@)),
        versions::sorted(scan::table::pairs(entries@)) && versions::are_small(
            scan::table::pairs(entries@),
        ) ==> r is Ok,
{
    let mut w = SSTableWriter::create(path);
    let ghost es = scan::table::pairs(entries@);
    proof {
        if versions::sorted(es) && versions::are_small(es) {
            layout::law_small_tables_are_built(es);
        }
    }
    let mut i: usize = 0;
    assert(es.take(0) =~= Seq::<Entry>::empty());
    while i < entries.len()
        invariant
            i <= entries@.len(),
            es == scan::table::pairs(entries@),
            versions::sorted(es) && versions::are_small(es) ==> layout::first_refusal(es) is None,
            w.wf(),
            w.target() == path@,
            w@ == layout::written(es.take(i as int)),
            layout::accepted(es.take(i as int)),
            w@.entries == i,
        decreases entries@.len() - i,
    {
        let (k, v) = &entries[i];
        let ghost next = es.take(i + 1);
        assert(next.drop_last() =~= es.take(i as int));
        assert(next.last() == (k@, v@));
        match w.add(k, v) {
            Err(e) => {
                proof {
                    layout::lemma_first_refusal(es.take(i as int));
                    layout::lemma_refused_early(es, i + 1);
                }
                return Err(e);
            },
            Ok(_) => {},
        }
        i += 1;
    }
    assert(es.take(i as int) =~= es);
    let r = w.finish();
    proof {
        lemma_built(r, path@, es);
    }
    r
}

} // verus!
