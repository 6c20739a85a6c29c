//! Reading the entries of several tables as one sequence.

use vstd::multiset::Multiset;
use vstd::prelude::*;

use crate::common::error::{DbError, DbResult, Fault};
use crate::common::key;
use crate::common::key::{Key, KeyView};
use crate::common::value::{Value, ValueView};
use crate::common::versions;
use crate::common::versions::Entry;
use crate::sstable::scan::table;
use crate::sstable::scan::table::{ScanView, TableScan};

verus! {

/// The source, among the first `n`, whose first entry has the least key; of
/// several the first one. -1 when all of them are empty.
pub open spec fn least(ss: Seq<Seq<Entry>>, n: int) -> int
    decreases n,
{
    if n <= 0 {
        -1
    } else {
        let p = least(ss, n - 1);
        if ss[n - 1].len() > 0 && (p < 0 || ss[n - 1][0].0.lt(ss[p][0].0)) {
            n - 1
        } else {
            p
        }
    }
}

/// Number of entries in all sources.
pub open spec fn total(ss: Seq<Seq<Entry>>) -> nat
    decreases ss.len(),
{
    if ss.len() == 0 {
        0
    } else {
        total(ss.drop_last()) + ss.last().len()
    }
}

/// Changing one source changes the total by its length.
pub proof fn lemma_total_update(ss: Seq<Seq<Entry>>, i: int, t: Seq<Entry>)
    requires
        0 <= i < ss.len(),
    ensures
        total(ss.update(i, t)) == total(ss) - ss[i].len() + t.len(),
    decreases ss.len(),
{
    let us = ss.update(i, t);
    if i == ss.len() - 1 {
        assert(us.drop_last() =~= ss.drop_last());
    } else {
        assert(us.drop_last() =~= ss.drop_last().update(i, t));
        lemma_total_update(ss.drop_last(), i, t);
    }
}

/// The least source has entries, and no other comes first.
pub proof fn lemma_least(ss: Seq<Seq<Entry>>, n: int)
    requires
        0 <= n <= ss.len(),
    ensures
        -1 <= least(ss, n) < n || n == 0 && least(ss, n) == -1,
        least(ss, n) >= 0 ==> ss[least(ss, n)].len() > 0,
        least(ss, n) < 0 ==> forall|j: int| 0 <= j < n ==> (#[trigger] ss[j]).len() == 0,
        least(ss, n) >= 0 ==> forall|j: int|
            0 <= j < n && (#[trigger] ss[j]).len() > 0 ==> !ss[j][0].0.lt(
                ss[least(ss, n)][0].0,
            ),
        least(ss, n) >= 0 ==> forall|j: int|
            0 <= j < least(ss, n) && (#[trigger] ss[j]).len() > 0 ==> ss[least(ss, n)][0].0.lt(
                ss[j][0].0,
            ),
    decreases n,
{
    broadcast use {
        key::lemma_key_irreflexive,
        key::lemma_key_transitive,
        key::lemma_key_asymmetric,
    };

    if n > 0 {
        lemma_least(ss, n - 1);
        let p = least(ss, n - 1);
        let q = least(ss, n);
        if q == n - 1 && p >= 0 {
            assert forall|j: int| 0 <= j < n && (#[trigger] ss[j]).len() > 0 implies !ss[j][0].0.lt(
                ss[q][0].0,
            ) by {
                if j < n - 1 && ss[j][0].0.lt(ss[q][0].0) {
                    assert(ss[j][0].0.lt(ss[p][0].0));
                }
            }
            assert forall|j: int| 0 <= j < q && (#[trigger] ss[j]).len() > 0 implies ss[q][0].0.lt(
                ss[j][0].0,
            ) by {
                assert(!ss[j][0].0.lt(ss[p][0].0));
                key::lemma_key_total(ss[j][0].0, ss[p][0].0);
            }
        }
    }
}

/// The entries of all sources, the least key first; of equal keys the one of
/// the first source comes first.
pub open spec fn merge(ss: Seq<Seq<Entry>>) -> Seq<Entry>
    decreases total(ss),
{
    let i = least(ss, ss.len() as int);
    if i < 0 {
        Seq::empty()
    } else {
        proof {
            lemma_least(ss, ss.len() as int);
            lemma_total_update(ss, i, ss[i].drop_first());
        }
        seq![ss[i][0]] + merge(ss.update(i, ss[i].drop_first()))
    }
}

/// The versions that sources hold when those of the first source count first.
pub open spec fn layered(ss: Seq<Seq<Entry>>) -> Map<KeyView, ValueView>
    decreases ss.len(),
{
    if ss.len() == 0 {
        Map::empty()
    } else {
        layered(ss.drop_first()).union_prefer_right(versions::map_of(ss[0]))
    }
}

/// Whether each source is in key order.
pub open spec fn all_ascending(ss: Seq<Seq<Entry>>) -> bool {
    forall|i: int| 0 <= i < ss.len() ==> versions::ascending(#[trigger] ss[i])
}

/// The first source that holds a key gives its value.
pub proof fn lemma_layered_first(ss: Seq<Seq<Entry>>, i: int, k: KeyView)
    requires
        0 <= i < ss.len(),
        versions::map_of(ss[i]).contains_key(k),
        forall|j: int| 0 <= j < i ==> !versions::map_of(#[trigger] ss[j]).contains_key(k),
    ensures
        layered(ss).contains_key(k),
        layered(ss)[k] == versions::map_of(ss[i])[k],
    decreases ss.len(),
{
    if i > 0 {
        let rest = ss.drop_first();
        assert(rest[i - 1] == ss[i]);
        assert forall|j: int| 0 <= j < i - 1 implies !versions::map_of(
            #[trigger] rest[j],
        ).contains_key(k) by {
            assert(rest[j] == ss[j + 1]);
        }
        lemma_layered_first(rest, i - 1, k);
        assert(!versions::map_of(ss[0]).contains_key(k));
    }
}

/// A key that no source holds is not there.
pub proof fn lemma_layered_none(ss: Seq<Seq<Entry>>, k: KeyView)
    requires
        forall|j: int|
            0 <= j < ss.len() ==> !versions::map_of(#[trigger] ss[j]).contains_key(k),
    ensures
        !layered(ss).contains_key(k),
    decreases ss.len(),
{
    if ss.len() > 0 {
        let rest = ss.drop_first();
        assert forall|j: int| 0 <= j < rest.len() implies !versions::map_of(
            #[trigger] rest[j],
        ).contains_key(k) by {
            assert(rest[j] == ss[j + 1]);
        }
        lemma_layered_none(rest, k);
        assert(!versions::map_of(ss[0]).contains_key(k));
    }
}

/// The first of the sources from `i` on that holds a key, if one does.
proof fn lemma_first_holder(ss: Seq<Seq<Entry>>, i: int, k: KeyView) -> (r: int)
    requires
        0 <= i <= ss.len(),
        forall|j: int| 0 <= j < i ==> !versions::map_of(#[trigger] ss[j]).contains_key(k),
    ensures
        i <= r <= ss.len(),
        r < ss.len() ==> versions::map_of(ss[r]).contains_key(k),
        forall|j: int| 0 <= j < r ==> !versions::map_of(#[trigger] ss[j]).contains_key(k),
    decreases ss.len() - i,
{
    if i == ss.len() || versions::map_of(ss[i]).contains_key(k) {
        i
    } else {
        lemma_first_holder(ss, i + 1, k)
    }
}

/// A source in key order does not hold a key that comes before its first one.
proof fn lemma_below_first(es: Seq<Entry>, k: KeyView)
    requires
        versions::ascending(es),
        es.len() > 0 ==> k.lt(es[0].0),
    ensures
        !versions::map_of(es).contains_key(k),
{
    broadcast use {key::lemma_key_irreflexive, key::lemma_key_asymmetric};

    versions::lemma_map_of_keys(es);
    if versions::has_key(es, k) {
        let x = choose|x: int| 0 <= x < es.len() && (#[trigger] es[x]).0 == k;
        if x > 0 {
            assert(es[0].0.le(es[x].0));
        }
        assert(false);
    }
}

/// Taking the least entry out of its source and putting it back on top changes
/// no version.
proof fn lemma_layered_step(ss: Seq<Seq<Entry>>, i: int)
    requires
        all_ascending(ss),
        i == least(ss, ss.len() as int),
        i >= 0,
    ensures
        0 <= i < ss.len(),
        ss[i].len() > 0,
        layered(ss) == layered(ss.update(i, ss[i].drop_first())).insert(ss[i][0].0, ss[i][0].1),
{
    lemma_least(ss, ss.len() as int);
    let e = ss[i][0];
    let us = ss.update(i, ss[i].drop_first());
    let (a, b) = (layered(ss), layered(us).insert(e.0, e.1));
    let (mi, ui) = (versions::map_of(ss[i]), versions::map_of(us[i]));
    assert(mi == ui.insert(e.0, e.1));
    assert forall|k: KeyView|
        (#[trigger] a.contains_key(k) <==> b.contains_key(k)) && (a.contains_key(k) ==> a[k]
            == b[k]) by {
        if k == e.0 {
            assert forall|j: int| 0 <= j < i implies !versions::map_of(
                #[trigger] ss[j],
            ).contains_key(k) by {
                lemma_below_first(ss[j], k);
            }
            lemma_layered_first(ss, i, k);
        } else {
            let r = lemma_first_holder(ss, 0, k);
            assert forall|j: int| 0 <= j < r implies !versions::map_of(
                #[trigger] us[j],
            ).contains_key(k) by {
                assert(!versions::map_of(ss[j]).contains_key(k));
                if j != i {
                    assert(us[j] == ss[j]);
                }
            }
            if r < ss.len() {
                lemma_layered_first(ss, r, k);
                if r != i {
                    assert(us[r] == ss[r]);
                }
                lemma_layered_first(us, r, k);
            } else {
                lemma_layered_none(ss, k);
                lemma_layered_none(us, k);
            }
        }
    }
    assert(a =~= b);
}

/// What remains of ascending sources is ascending and not before the entry that
/// was taken.
proof fn lemma_step_ascending(ss: Seq<Seq<Entry>>, i: int)
    requires
        all_ascending(ss),
        0 <= i < ss.len(),
        ss[i].len() > 0,
    ensures
        all_ascending(ss.update(i, ss[i].drop_first())),
{
    let us = ss.update(i, ss[i].drop_first());
    assert forall|j: int| 0 <= j < us.len() implies versions::ascending(#[trigger] us[j]) by {
        assert(versions::ascending(ss[j]));
        if j == i {
            let (s, t) = (ss[i], ss[i].drop_first());
            assert forall|x: int, y: int| 0 <= x < y < t.len() implies (#[trigger] t[x]).0.le(
                (#[trigger] t[y]).0,
            ) by {
                assert(t[x] == s[x + 1] && t[y] == s[y + 1]);
            }
        }
    }
}

/// Every entry of a merge is an entry of a source.
proof fn lemma_merge_from(ss: Seq<Seq<Entry>>, x: int) -> (r: (int, int))
    requires
        0 <= x < merge(ss).len(),
    ensures
        0 <= r.0 < ss.len(),
        0 <= r.1 < ss[r.0].len(),
        ss[r.0][r.1] == merge(ss)[x],
    decreases total(ss),
{
    let i = least(ss, ss.len() as int);
    lemma_least(ss, ss.len() as int);
    let us = ss.update(i, ss[i].drop_first());
    lemma_total_update(ss, i, ss[i].drop_first());
    if x == 0 {
        (i, 0)
    } else {
        assert(merge(ss)[x] == merge(us)[x - 1]);
        let (p, q) = lemma_merge_from(us, x - 1);
        if p == i {
            (p, q + 1)
        } else {
            (p, q)
        }
    }
}

/// The entries of all sources, each as often as it occurs.
pub open spec fn pooled(ss: Seq<Seq<Entry>>) -> Multiset<Entry>
    decreases ss.len(),
{
    if ss.len() == 0 {
        Multiset::empty()
    } else {
        pooled(ss.drop_last()).add(ss.last().to_multiset())
    }
}

/// For each entry of a merge the source that it comes from.
pub open spec fn origins(ss: Seq<Seq<Entry>>) -> Seq<int>
    decreases total(ss),
{
    let i = least(ss, ss.len() as int);
    if i < 0 {
        Seq::empty()
    } else {
        proof {
            lemma_least(ss, ss.len() as int);
            lemma_total_update(ss, i, ss[i].drop_first());
        }
        seq![i] + origins(ss.update(i, ss[i].drop_first()))
    }
}

/// Taking the first entry of a source takes one entry out of the pool.
proof fn lemma_pooled_step(ss: Seq<Seq<Entry>>, i: int)
    requires
        0 <= i < ss.len(),
        ss[i].len() > 0,
    ensures
        pooled(ss) == pooled(ss.update(i, ss[i].drop_first())).insert(ss[i][0]),
    decreases ss.len(),
{
    let e = ss[i][0];
    let us = ss.update(i, ss[i].drop_first());
    if i == ss.len() - 1 {
        assert(us.drop_last() =~= ss.drop_last());
        let rest = ss[i].drop_first();
        assert(ss[i] =~= seq![e] + rest);
        vstd::seq_lib::lemma_multiset_commutative(seq![e], rest);
        assert(seq![e] =~= Seq::<Entry>::empty().push(e));
        broadcast use vstd::seq_lib::group_to_multiset_ensures;

        assert(seq![e].to_multiset() =~= Multiset::<Entry>::empty().insert(e));
    } else {
        assert(us.drop_last() =~= ss.drop_last().update(i, ss[i].drop_first()));
        assert(us.last() == ss.last());
        lemma_pooled_step(ss.drop_last(), i);
    }
    assert(pooled(ss) =~= pooled(us).insert(e));
}

/// Sources without entries have an empty pool.
proof fn lemma_pooled_empty(ss: Seq<Seq<Entry>>)
    requires
        forall|j: int| 0 <= j < ss.len() ==> (#[trigger] ss[j]).len() == 0,
    ensures
        pooled(ss) == Multiset::<Entry>::empty(),
    decreases ss.len(),
{
    if ss.len() > 0 {
        broadcast use vstd::seq_lib::group_to_multiset_ensures;

        lemma_pooled_empty(ss.drop_last());
        assert(ss[ss.len() - 1].len() == 0);
        assert(ss.last() =~= Seq::<Entry>::empty());
        assert(pooled(ss) =~= Multiset::<Entry>::empty());
    }
}

/// A merge gives each entry of each source exactly once: nothing is dropped, and
/// nothing is doubled.
pub proof fn law_merge_is_permutation(ss: Seq<Seq<Entry>>)
    ensures
        merge(ss).to_multiset() == pooled(ss),
    decreases total(ss),
{
    broadcast use vstd::seq_lib::group_to_multiset_ensures;

    let i = least(ss, ss.len() as int);
    lemma_least(ss, ss.len() as int);
    if i < 0 {
        lemma_pooled_empty(ss);
        assert(merge(ss).to_multiset() =~= Multiset::<Entry>::empty());
    } else {
        let e = ss[i][0];
        let us = ss.update(i, ss[i].drop_first());
        lemma_total_update(ss, i, ss[i].drop_first());
        law_merge_is_permutation(us);
        lemma_pooled_step(ss, i);
        vstd::seq_lib::lemma_multiset_commutative(seq![e], merge(us));
        assert(seq![e] =~= Seq::<Entry>::empty().push(e));
        assert(seq![e].to_multiset() =~= Multiset::<Entry>::empty().insert(e));
        assert(merge(ss).to_multiset() =~= pooled(ss));
    }
}

/// Each entry of a merge comes from the source that is named for it.
proof fn lemma_origin(ss: Seq<Seq<Entry>>, x: int) -> (q: int)
    requires
        0 <= x < merge(ss).len(),
    ensures
        origins(ss).len() == merge(ss).len(),
        0 <= origins(ss)[x] < ss.len(),
        0 <= q < ss[origins(ss)[x]].len(),
        ss[origins(ss)[x]][q] == merge(ss)[x],
    decreases total(ss),
{
    let i = least(ss, ss.len() as int);
    lemma_least(ss, ss.len() as int);
    let us = ss.update(i, ss[i].drop_first());
    lemma_total_update(ss, i, ss[i].drop_first());
    if x == 0 {
        lemma_origins_len(us);
        0
    } else {
        assert(merge(ss)[x] == merge(us)[x - 1]);
        let q = lemma_origin(us, x - 1);
        assert(origins(ss)[x] == origins(us)[x - 1]);
        if origins(ss)[x] == i {
            q + 1
        } else {
            q
        }
    }
}

proof fn lemma_origins_len(ss: Seq<Seq<Entry>>)
    ensures
        origins(ss).len() == merge(ss).len(),
    decreases total(ss),
{
    let i = least(ss, ss.len() as int);
    lemma_least(ss, ss.len() as int);
    if i >= 0 {
        lemma_total_update(ss, i, ss[i].drop_first());
        lemma_origins_len(ss.update(i, ss[i].drop_first()));
    }
}

/// In a merge of sources in key order, entries with equal keys come in the order
/// of their sources, and each entry is one of its source.
pub proof fn law_merge_is_stable(ss: Seq<Seq<Entry>>, x: int, y: int)
    requires
        all_ascending(ss),
        0 <= x < y < merge(ss).len(),
    ensures
        origins(ss).len() == merge(ss).len(),
        0 <= origins(ss)[x] < ss.len(),
        ss[origins(ss)[x]].contains(merge(ss)[x]),
        merge(ss)[x].0 == merge(ss)[y].0 ==> origins(ss)[x] <= origins(ss)[y],
    decreases total(ss),
{
    broadcast use {
        key::lemma_key_irreflexive,
        key::lemma_key_transitive,
        key::lemma_key_asymmetric,
    };

    let i = least(ss, ss.len() as int);
    lemma_least(ss, ss.len() as int);
    let qx = lemma_origin(ss, x);
    assert(ss[origins(ss)[x]][qx] == merge(ss)[x]);
    let us = ss.update(i, ss[i].drop_first());
    lemma_total_update(ss, i, ss[i].drop_first());
    lemma_step_ascending(ss, i);
    lemma_origins_len(us);
    if x > 0 {
        law_merge_is_stable(us, x - 1, y - 1);
        assert(merge(ss)[x] == merge(us)[x - 1] && merge(ss)[y] == merge(us)[y - 1]);
        assert(origins(ss)[x] == origins(us)[x - 1] && origins(ss)[y] == origins(us)[y - 1]);
    } else if merge(ss)[0].0 == merge(ss)[y].0 {
        let q = lemma_origin(ss, y);
        let p = origins(ss)[y];
        assert(merge(ss)[0] == ss[i][0]);
        if p < i {
            assert(ss[p].len() > 0);
            assert(ss[i][0].0.lt(ss[p][0].0));
            assert(versions::ascending(ss[p]));
            if q > 0 {
                assert(ss[p][0].0.le(ss[p][q].0));
            }
            assert(false);
        }
    }
}

/// Merging sources in key order gives their entries in key order, and the
/// versions are those of the sources, the first source counting first.
pub proof fn law_merge(ss: Seq<Seq<Entry>>)
    requires
        all_ascending(ss),
    ensures
        versions::ascending(merge(ss)),
        versions::map_of(merge(ss)) == layered(ss),
        merge(ss).len() == total(ss),
    decreases total(ss),
{
    let i = least(ss, ss.len() as int);
    lemma_least(ss, ss.len() as int);
    if i < 0 {
        lemma_all_empty(ss);
    } else {
        let e = ss[i][0];
        let us = ss.update(i, ss[i].drop_first());
        lemma_total_update(ss, i, ss[i].drop_first());
        lemma_step_ascending(ss, i);
        lemma_layered_step(ss, i);
        law_merge(us);
        let (ms, rest) = (merge(ss), merge(us));
        assert(ms.drop_first() =~= rest);
        assert forall|x: int, y: int| 0 <= x < y < ms.len() implies (#[trigger] ms[x]).0.le(
            (#[trigger] ms[y]).0,
        ) by {
            assert(ms[y] == rest[y - 1]);
            if x > 0 {
                assert(ms[x] == rest[x - 1]);
            } else {
                let (p, q) = lemma_merge_from(us, y - 1);
                lemma_head_least(ss, p, if p == i { q + 1 } else { q });
            }
        }
    }
}

/// No entry of a source comes before the least first entry.
proof fn lemma_head_least(ss: Seq<Seq<Entry>>, p: int, q: int)
    requires
        all_ascending(ss),
        0 <= p < ss.len(),
        0 <= q < ss[p].len(),
    ensures
        least(ss, ss.len() as int) >= 0,
        ss[least(ss, ss.len() as int)][0].0.le(ss[p][q].0),
{
    broadcast use {key::lemma_key_transitive, key::lemma_key_asymmetric};

    lemma_least(ss, ss.len() as int);
    let i = least(ss, ss.len() as int);
    assert(ss[p].len() > 0);
    let (h, s) = (ss[i][0].0, ss[p]);
    assert(versions::ascending(s));
    key::lemma_key_total(h, s[0].0);
    if q > 0 {
        assert(s[0].0.le(s[q].0));
    }
}

/// Sources without entries hold no versions.
proof fn lemma_all_empty(ss: Seq<Seq<Entry>>)
    requires
        forall|j: int| 0 <= j < ss.len() ==> (#[trigger] ss[j]).len() == 0,
    ensures
        total(ss) == 0,
        layered(ss) == Map::<KeyView, ValueView>::empty(),
    decreases ss.len(),
{
    if ss.len() > 0 {
        lemma_total_empty(ss);
        let rest = ss.drop_first();
        assert forall|j: int| 0 <= j < rest.len() implies (#[trigger] rest[j]).len() == 0 by {
            assert(rest[j] == ss[j + 1]);
        }
        lemma_all_empty(rest);
        assert(ss[0].len() == 0);
        assert(layered(ss) =~= Map::<KeyView, ValueView>::empty());
    }
}

proof fn lemma_total_empty(ss: Seq<Seq<Entry>>)
    requires
        forall|j: int| 0 <= j < ss.len() ==> (#[trigger] ss[j]).len() == 0,
    ensures
        total(ss) == 0,
    decreases ss.len(),
{
    if ss.len() > 0 {
        assert(ss[ss.len() - 1].len() == 0);
        lemma_total_empty(ss.drop_last());
    }
}

/// One source of a merge: the entry that was read ahead, if there is one, and
/// the scan behind it.
pub struct Source {
    /// The entry that was read ahead.
    pub head: Option<Entry>,
    /// Where the scan stands.
    pub scan: ScanView,
}

impl Source {
    /// The entry that was read ahead, as a sequence.
    pub open spec fn first(self) -> Seq<Entry> {
        match self.head {
            Some(e) => seq![e],
            None => Seq::empty(),
        }
    }

    /// What the source still has to give, unless reading it fails.
    pub open spec fn rest(self) -> Result<Seq<Entry>, Fault> {
        match self.head {
            Some(e) => table::after(seq![e], self.scan.all()),
            None => Ok(Seq::empty()),
        }
    }

    /// The source with the next entry of its scan read ahead.
    pub open spec fn advanced(self) -> Result<Source, Fault> {
        match self.scan.next() {
            (Ok(head), scan) => Ok(Source { head, scan }),
            (Err(f), _) => Err(f),
        }
    }

    /// The source once reading ahead has failed: it has no entry to give.
    pub open spec fn failed(self) -> Source {
        Source { head: None, scan: self.scan.next().1 }
    }

    /// A bound on the number of entries that are still to come.
    pub open spec fn weight(self) -> nat {
        self.scan.remaining + self.first().len()
    }
}

/// Reading ahead gives what the scan gives.
proof fn lemma_advanced(s: Source)
    ensures
        s.advanced() matches Ok(t) ==> t.rest() == s.scan.all() && t.weight() <= s.scan.remaining,
        s.advanced() matches Err(f) ==> s.scan.all() == Err::<Seq<Entry>, Fault>(f),
{
    reveal(ScanView::all);
}

/// The entries that were read ahead, each as a sequence.
pub open spec fn firsts(ss: Seq<Source>) -> Seq<Seq<Entry>> {
    Seq::new(ss.len(), |i: int| ss[i].first())
}

/// What each source still has to give.
pub open spec fn rests(ss: Seq<Source>) -> Seq<Result<Seq<Entry>, Fault>> {
    Seq::new(ss.len(), |i: int| ss[i].rest())
}

/// A bound on the number of entries that are still to come.
pub open spec fn budget(ss: Seq<Source>) -> nat
    decreases ss.len(),
{
    if ss.len() == 0 {
        0
    } else {
        budget(ss.drop_last()) + ss.last().weight()
    }
}

/// What the next step of a merge gives, and the sources behind it.
pub open spec fn next(ss: Seq<Source>) -> (Result<Option<Entry>, Fault>, Seq<Source>) {
    let i = least(firsts(ss), ss.len() as int);
    if i < 0 {
        (Ok(None), ss)
    } else {
        match ss[i].advanced() {
            Ok(s) => (Ok(ss[i].head), ss.update(i, s)),
            Err(f) => (Err(f), ss.update(i, ss[i].failed())),
        }
    }
}

/// The sources of scans, each with its first entry read ahead, unless reading
/// one of them fails.
pub open spec fn opened(scans: Seq<ScanView>) -> Result<Seq<Source>, Fault>
    decreases scans.len(),
{
    if scans.len() == 0 {
        Ok(Seq::empty())
    } else {
        match opened(scans.drop_last()) {
            Err(f) => Err(f),
            Ok(ss) => match (Source { head: None, scan: scans.last() }).advanced() {
                Err(f) => Err(f),
                Ok(s) => Ok(ss.push(s)),
            },
        }
    }
}

/// What scans give from where they stand, each to its end.
pub open spec fn all_of(scans: Seq<ScanView>) -> Seq<Result<Seq<Entry>, Fault>> {
    Seq::new(scans.len(), |i: int| scans[i].all())
}

/// The entries of sources that can all be read to their end.
pub open spec fn good_rests(rests: Seq<Result<Seq<Entry>, Fault>>) -> Option<Seq<Seq<Entry>>> {
    if forall|i: int| 0 <= i < rests.len() ==> #[trigger] rests[i] is Ok {
        Some(Seq::new(rests.len(), |i: int| rests[i]->Ok_0))
    } else {
        None
    }
}

/// The entries that a merge gives, if all sources can be read.
pub open spec fn merged(ss: Seq<Source>) -> Option<Seq<Entry>> {
    match good_rests(rests(ss)) {
        Some(es) => Some(merge(es)),
        None => None,
    }
}

proof fn lemma_budget_update(ss: Seq<Source>, i: int, s: Source)
    requires
        0 <= i < ss.len(),
    ensures
        budget(ss.update(i, s)) == budget(ss) - ss[i].weight() + s.weight(),
    decreases ss.len(),
{
    let us = ss.update(i, s);
    if i == ss.len() - 1 {
        assert(us.drop_last() =~= ss.drop_last());
    } else {
        assert(us.drop_last() =~= ss.drop_last().update(i, s));
        lemma_budget_update(ss.drop_last(), i, s);
    }
}

/// Starting a merge fails only where a scan fails, and otherwise loses nothing.
pub proof fn lemma_opened(scans: Seq<ScanView>)
    ensures
        opened(scans) matches Ok(ss) ==> rests(ss) == all_of(scans),
        opened(scans) is Err ==> good_rests(all_of(scans)) is None,
    decreases scans.len(),
{
    let alls = all_of(scans);
    if scans.len() == 0 {
        assert(rests(Seq::empty()) =~= alls);
    } else {
        let prev = scans.drop_last();
        lemma_opened(prev);
        let s = Source { head: None, scan: scans.last() };
        lemma_advanced(s);
        assert(all_of(prev) =~= alls.drop_last());
        if let Ok(ss) = opened(prev) {
            if let Ok(t) = s.advanced() {
                assert(rests(ss.push(t)) =~= rests(ss).push(t.rest()));
                assert(rests(ss.push(t)) =~= alls);
            } else {
                assert(!(alls[scans.len() - 1] is Ok));
            }
        } else {
            let x = choose|x: int| 0 <= x < prev.len() && !(#[trigger] all_of(prev)[x] is Ok);
            assert(alls[x] == all_of(prev)[x]);
        }
    }
}

/// A step of a merge gives the next entry of all sources, if these can be read to
/// their end. It fails only where a source fails.
pub proof fn lemma_next(ss: Seq<Source>)
    ensures
        next(ss).0 matches Ok(None) ==> next(ss).1 == ss && merged(ss) == Some(
            Seq::<Entry>::empty(),
        ),
        next(ss).0 matches Ok(Some(e)) ==> {
            &&& budget(next(ss).1) < budget(ss)
            &&& match merged(ss) {
                Some(m) => m.len() > 0 && m[0] == e && merged(next(ss).1) == Some(m.drop_first()),
                None => merged(next(ss).1) is None,
            }
        },
        next(ss).0 is Err ==> merged(ss) is None,
{
    let hs = firsts(ss);
    let i = least(hs, ss.len() as int);
    lemma_least(hs, ss.len() as int);
    if i < 0 {
        lemma_all_ended(ss);
    } else {
        assert(hs[i] == ss[i].first());
        let e = ss[i].head->0;
        lemma_advanced(ss[i]);
        if let Ok(s) = ss[i].advanced() {
            let us = ss.update(i, s);
            lemma_budget_update(ss, i, s);
            assert(rests(us) =~= rests(ss).update(i, s.rest()));
            lemma_next_merged(ss, us, i, e);
        } else {
            assert(!(rests(ss)[i] is Ok));
        }
    }
}

/// Sources with nothing read ahead give nothing.
proof fn lemma_all_ended(ss: Seq<Source>)
    requires
        least(firsts(ss), ss.len() as int) < 0,
    ensures
        merged(ss) == Some(Seq::<Entry>::empty()),
{
    lemma_least(firsts(ss), ss.len() as int);
    assert forall|i: int| 0 <= i < ss.len() implies #[trigger] rests(ss)[i] == Ok::<
        Seq<Entry>,
        Fault,
    >(Seq::empty()) by {
        assert(firsts(ss)[i].len() == 0);
    }
    let es = good_rests(rests(ss))->0;
    lemma_least(es, es.len() as int);
    let p = least(es, es.len() as int);
    if p >= 0 {
        assert(es[p].len() == 0);
    }
}

/// The least source goes by the first entries alone.
proof fn lemma_least_firsts(ss: Seq<Seq<Entry>>, hs: Seq<Seq<Entry>>, n: int)
    requires
        ss.len() == hs.len(),
        0 <= n <= ss.len(),
        forall|j: int| 0 <= j < ss.len() ==> ((#[trigger] ss[j]).len() > 0 <==> hs[j].len() > 0),
        forall|j: int| 0 <= j < ss.len() && (#[trigger] ss[j]).len() > 0 ==> ss[j][0] == hs[j][0],
    ensures
        least(ss, n) == least(hs, n),
    decreases n,
{
    if n > 0 {
        lemma_least_firsts(ss, hs, n - 1);
        lemma_least(ss, n - 1);
        lemma_least(hs, n - 1);
        let p = least(ss, n - 1);
        assert(ss[n - 1].len() > 0 <==> hs[n - 1].len() > 0);
        if p >= 0 {
            assert(ss[p].len() > 0);
        }
    }
}

/// Taking the entry that was read ahead is a step of the merge.
proof fn lemma_next_merged(ss: Seq<Source>, us: Seq<Source>, i: int, e: Entry)
    requires
        i == least(firsts(ss), ss.len() as int),
        0 <= i < ss.len(),
        ss[i].head == Some(e),
        rests(us) == rests(ss).update(i, rests(us)[i]),
        rests(ss)[i] == table::after(seq![e], rests(us)[i]),
    ensures
        match merged(ss) {
            Some(m) => m.len() > 0 && m[0] == e && merged(us) == Some(m.drop_first()),
            None => merged(us) is None,
        },
{
    let (before, now) = (rests(ss), rests(us));
    if good_rests(before) is Some {
        let (hs, es) = (firsts(ss), good_rests(before)->0);
        assert forall|j: int| 0 <= j < es.len() implies ((#[trigger] es[j]).len() > 0
            <==> hs[j].len() > 0) by {
            assert(before[j] is Ok);
        }
        assert forall|j: int| 0 <= j < es.len() && (#[trigger] es[j]).len() > 0 implies es[j][0]
            == hs[j][0] by {
            assert(before[j] is Ok);
        }
        lemma_least_firsts(es, hs, es.len() as int);
        assert(before[i] is Ok);
        assert(now[i] is Ok);
        assert forall|j: int| 0 <= j < now.len() implies #[trigger] now[j] is Ok by {
            assert(before[j] is Ok);
        }
        let ts = good_rests(now)->0;
        assert(es[i].drop_first() =~= ts[i]);
        assert(ts =~= es.update(i, es[i].drop_first())) by {
            assert forall|j: int| 0 <= j < ts.len() implies ts[j] == es.update(
                i,
                es[i].drop_first(),
            )[j] by {
                if j != i {
                    assert(now[j] == before[j]);
                }
            }
        }
        assert(merge(es).drop_first() =~= merge(ts));
    } else {
        let x = choose|x: int| 0 <= x < before.len() && !(#[trigger] before[x] is Ok);
        assert(!(now[x] is Ok));
    }
}

/// Reads several tables in key order. Of entries with equal keys that of the
/// first table comes first, so the tables are given newest first.
pub struct MergeScan {
    scans: Vec<TableScan>,
    pending: Vec<Option<(Key, Value)>>,
}

/// Where scans stand.
pub open spec fn views(scans: Seq<TableScan>) -> Seq<ScanView> {
    Seq::new(scans.len(), |i: int| scans[i]@)
}

/// The content of an entry, if there is one.
spec fn entry_of(pending: Option<(Key, Value)>) -> Option<Entry> {
    match pending {
        Some((k, v)) => Some((k@, v@)),
        None => None,
    }
}

impl View for MergeScan {
    type V = Seq<Source>;

    closed spec fn view(&self) -> Seq<Source> {
        Seq::new(
            self.scans@.len(),
            |i: int| Source { head: entry_of(self.pending@[i]), scan: self.scans@[i]@ },
        )
    }
}

impl MergeScan {
    /// Each source is in good order.
    pub closed spec fn wf(&self) -> bool {
        &&& self.pending@.len() == self.scans@.len()
        &&& forall|i: int| 0 <= i < self.scans@.len() ==> (#[trigger] self.scans@[i]).wf()
    }

    /// Starts to read tables, given newest first.
    pub fn new(scans: Vec<TableScan>) -> (r: DbResult<Self>)
        requires
            forall|i: int| 0 <= i < scans@.len() ==> (#[trigger] scans@[i]).wf(),
        ensures
            r matches Ok(m) ==> m.wf() && opened(views(scans@)) == Ok::<Seq<Source>, Fault>(m@),
            r matches Err(e) ==> opened(views(scans@)) matches Err(f) && e.reports(f),
    {
        let ghost all = views(scans@);
        let n: usize = scans.len();
        let mut pending: Vec<Option<(Key, Value)>> = Vec::new();
        while pending.len() < n
            invariant
                pending@.len() <= n,
                forall|i: int| 0 <= i < pending@.len() ==> #[trigger] pending@[i] is None,
            decreases n - pending@.len(),
        {
            pending.push(None);
        }
        let mut me = Self { scans, pending };
        let mut i: usize = 0;
        assert(all.take(0) =~= Seq::<ScanView>::empty());
        assert(me@.take(0) =~= Seq::<Source>::empty());
        while i < n
            invariant
                me.wf(),
                i <= n,
                n == me@.len(),
                all.len() == n,
                all == views(scans@),
                opened(all.take(i as int)) == Ok::<Seq<Source>, Fault>(me@.take(i as int)),
                forall|j: int|
                    i <= j < n ==> #[trigger] me@[j] == (Source { head: None, scan: all[j] }),
            decreases n - i,
        {
            let ghost before = me@;
            assert(all.take(i + 1).drop_last() =~= all.take(i as int));
            assert(before[i as int] == (Source { head: None, scan: all[i as int] }));
            match me.advance(i) {
                Ok(_) => {},
                Err(e) => {
                    proof {
                        lemma_opened_early(all, i + 1);
                    }
                    return Err(e);
                },
            }
            assert(me@.take(i + 1) =~= before.take(i as int).push(me@[i as int]));
            i += 1;
        }
        assert(all.take(n as int) =~= all);
        assert(me@.take(n as int) =~= me@);
        Ok(me)
    }

    /// Reads the next entry of source `i` ahead.
    fn advance(&mut self, i: usize) -> (r: DbResult<()>)
        requires
            old(self).wf(),
            i < old(self)@.len(),
        ensures
            final(self).wf(),
            r is Ok ==> (old(self)@[i as int].advanced() matches Ok(s) && final(self)@ == old(
                self,
            )@.update(i as int, s)),
            r matches Err(e) ==> (old(self)@[i as int].advanced() matches Err(f) && e.reports(f)),
            r is Err && old(self)@[i as int].head is None ==> final(self)@ == old(self)@.update(
                i as int,
                old(self)@[i as int].failed(),
            ),
    {
        match self.scans[i].next() {
            Err(e) => {
                proof {
                    let s = old(self)@[i as int];
                    if s.head is None {
                        assert(self@ =~= old(self)@.update(i as int, s.failed()));
                    }
                }
                Err(e)
            },
            Ok(o) => {
                self.pending.set(i, o);
                proof {
                    let s = old(self)@[i as int].advanced()->Ok_0;
                    assert(self@ =~= old(self)@.update(i as int, s));
                }
                Ok(())
            },
        }
    }

    /// The source whose entry comes next.
    fn first(&self) -> (r: Option<usize>)
        requires
            self.wf(),
        ensures
            r is None <==> least(firsts(self@), self@.len() as int) < 0,
            r matches Some(i) ==> i == least(firsts(self@), self@.len() as int) && i < self@.len()
                && self.pending@[i as int] is Some,
    {
        let mut best: Option<usize> = None;
        let mut n: usize = 0;
        while n < self.pending.len()
            invariant
                self.wf(),
                n <= self.pending@.len(),
                best is None <==> least(firsts(self@), n as int) < 0,
                best matches Some(i) ==> i == least(firsts(self@), n as int) && i < n
                    && self.pending@[i as int] is Some,
            decreases self.pending@.len() - n,
        {
            assert(firsts(self@)[n as int] == self@[n as int].first());
            match (&self.pending[n], best) {
                (None, _) => {},
                (Some(_), None) => {
                    best = Some(n);
                },
                (Some(a), Some(i)) => {
                    if let Some(b) = &self.pending[i] {
                        assert(firsts(self@)[n as int][0].0 == a.0@);
                        assert(firsts(self@)[i as int][0].0 == b.0@);
                        if a.0.before(b.0.0.as_str(), b.0.1) {
                            best = Some(n);
                        }
                    }
                },
            }
            n += 1;
        }
        best
    }

    /// The next entry, if there is one.
    pub fn next(&mut self) -> (r: DbResult<Option<(Key, Value)>>)
        requires
            old(self).wf(),
        ensures
            final(self).wf(),
            r matches Ok(None) ==> next(old(self)@) == (
                Ok::<Option<Entry>, Fault>(None),
                final(self)@,
            ),
            r matches Ok(Some((k, v))) ==> next(old(self)@) == (
                Ok::<Option<Entry>, Fault>(Some((k@, v@))),
                final(self)@,
            ),
            r matches Err(e) ==> next(old(self)@).1 == final(self)@ && (next(
                old(self)@,
            ).0 matches Err(f) && e.reports(f)),
    {
        let i: usize = match self.first() {
            Some(i) => i,
            None => {
                return Ok(None);
            },
        };
        let ghost before = self@;
        let entry = match self.pending[i].take() {
            Some(e) => e,
            None => {
                assert(false);
                return Err(DbError::invalid_state("pending set"));
            },
        };
        let ghost taken = Source { head: None, scan: before[i as int].scan };
        assert(self@ =~= before.update(i as int, taken));
        assert(taken.advanced() == before[i as int].advanced());
        match self.advance(i) {
            Err(e) => {
                assert(self@ =~= next(before).1);
                return Err(e);
            },
            Ok(_) => {},
        }
        assert(self@ =~= next(before).1);
        Ok(Some(entry))
    }
}

/// A merge whose first scans cannot be started cannot be started.
proof fn lemma_opened_early(scans: Seq<ScanView>, n: int)
    requires
        0 <= n <= scans.len(),
        opened(scans.take(n)) is Err,
    ensures
        opened(scans) == opened(scans.take(n)),
    decreases scans.len() - n,
{
    if n < scans.len() {
        assert(scans.take(n + 1).drop_last() =~= scans.take(n));
        lemma_opened_early(scans, n + 1);
    } else {
        assert(scans.take(n) =~= scans);
    }
}

/// A merge holds an entry exactly when one of the sources does.
pub proof fn law_merge_entries(ss: Seq<Seq<Entry>>, e: Entry)
    ensures
        merge(ss).contains(e) <==> exists|i: int|
            0 <= i < ss.len() && (#[trigger] ss[i]).contains(e),
    decreases total(ss),
{
    let i = least(ss, ss.len() as int);
    lemma_least(ss, ss.len() as int);
    if i < 0 {
        lemma_all_empty(ss);
        assert(merge(ss).len() == 0);
        assert forall|x: int| 0 <= x < ss.len() implies !(#[trigger] ss[x]).contains(e) by {
            assert(ss[x].len() == 0);
        }
    } else {
        let (first, rest) = (ss[i][0], ss[i].drop_first());
        let us = ss.update(i, rest);
        lemma_total_update(ss, i, rest);
        law_merge_entries(us, e);
        let (ms, ns) = (merge(ss), merge(us));
        if ms.contains(e) {
            let x = choose|x: int| 0 <= x < ms.len() && ms[x] == e;
            if x == 0 {
                assert(ss[i].contains(e)) by {
                    assert(ss[i][0] == e);
                }
            } else {
                assert(ns[x - 1] == e);
                let j = choose|j: int| 0 <= j < us.len() && (#[trigger] us[j]).contains(e);
                if j == i {
                    let y = choose|y: int| 0 <= y < rest.len() && rest[y] == e;
                    assert(ss[i][y + 1] == e);
                    assert(ss[i].contains(e));
                } else {
                    assert(ss[j].contains(e));
                }
            }
        }
        if exists|j: int| 0 <= j < ss.len() && (#[trigger] ss[j]).contains(e) {
            let j = choose|j: int| 0 <= j < ss.len() && (#[trigger] ss[j]).contains(e);
            let y = choose|y: int| 0 <= y < ss[j].len() && ss[j][y] == e;
            if j == i && y == 0 {
                assert(ms[0] == e);
            } else {
                if j == i {
                    assert(rest[y - 1] == e);
                    assert(us[i].contains(e));
                } else {
                    assert(us[j] == ss[j]);
                    assert(us[j].contains(e));
                }
                let x = choose|x: int| 0 <= x < ns.len() && ns[x] == e;
                assert(ms[x + 1] == e);
            }
        }
    }
}

/// Sources can all be read exactly when each of them can, and then give what each gives.
pub proof fn law_all_sources_are_read(rests: Seq<Result<Seq<Entry>, Fault>>)
    ensures
        good_rests(rests) is Some <==> forall|i: int|
            0 <= i < rests.len() ==> #[trigger] rests[i] is Ok,
        good_rests(rests) matches Some(ss) ==> ss.len() == rests.len() && forall|i: int|
            0 <= i < rests.len() ==> rests[i] == Ok::<Seq<Entry>, Fault>(#[trigger] ss[i]),
{
}

} // verus!
