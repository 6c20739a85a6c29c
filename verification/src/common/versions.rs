//! Versions of keys: how a set of versions answers a read.

use vstd::prelude::*;
use vstd::utf8::*;

use crate::common::key;
use crate::common::key::KeyView;
use crate::common::lookup::LookupView;
use crate::common::text;
use crate::common::value::ValueView;

verus! {

/// One version of a key with its value.
pub type Entry = (KeyView, ValueView);

/// The versions that a sequence of entries holds. Of several entries with the
/// same key the first one counts.
pub open spec fn map_of(es: Seq<Entry>) -> Map<KeyView, ValueView>
    decreases es.len(),
{
    if es.len() == 0 {
        Map::empty()
    } else {
        map_of(es.drop_first()).insert(es[0].0, es[0].1)
    }
}

/// Whether some entry has the key `k`.
pub open spec fn has_key(es: Seq<Entry>, k: KeyView) -> bool {
    exists|i: int| 0 <= i < es.len() && (#[trigger] es[i]).0 == k
}

/// Whether the entries stand in strictly ascending order of their keys.
pub open spec fn sorted(es: Seq<Entry>) -> bool {
    forall|i: int, j: int|
        0 <= i < j < es.len() ==> (#[trigger] es[i]).0.lt((#[trigger] es[j]).0)
}

/// Whether the entries stand in ascending order of their keys, equal keys
/// included.
pub open spec fn ascending(es: Seq<Entry>) -> bool {
    forall|i: int, j: int|
        0 <= i < j < es.len() ==> (#[trigger] es[i]).0.le((#[trigger] es[j]).0)
}

/// Whether `k` would stand at position `t`: the entries before `t` have smaller
/// keys, the entry at `t` does not.
pub open spec fn stands_at(es: Seq<Entry>, k: KeyView, t: int) -> bool {
    &&& 0 <= t <= es.len()
    &&& forall|i: int| 0 <= i < t ==> (#[trigger] es[i]).0.lt(k)
    &&& t < es.len() ==> !es[t].0.lt(k)
}

/// Whether `s` is the newest version of `user` that a reader at `snap` may see.
pub open spec fn newest(m: Map<KeyView, ValueView>, user: Seq<char>, snap: u64, s: u64) -> bool {
    &&& s <= snap
    &&& m.contains_key(KeyView { user, seq: s })
    &&& forall|x: u64|
        s < x <= snap ==> !#[trigger] m.contains_key(KeyView { user, seq: x })
}

/// What a reader at `snap` finds under `user`: its newest version with a
/// sequence number of at most `snap`.
pub open spec fn lookup(m: Map<KeyView, ValueView>, user: Seq<char>, snap: u64) -> LookupView {
    if exists|s: u64| newest(m, user, snap, s) {
        LookupView::of(m[KeyView { user, seq: choose|s: u64| newest(m, user, snap, s) }])
    } else {
        LookupView::Absent
    }
}

/// The newest version is what a lookup finds.
pub proof fn lemma_lookup_newest(m: Map<KeyView, ValueView>, user: Seq<char>, snap: u64, s: u64)
    requires
        newest(m, user, snap, s),
    ensures
        lookup(m, user, snap) == LookupView::of(m[KeyView { user, seq: s }]),
{
    let c = choose|c: u64| newest(m, user, snap, c);
    assert(newest(m, user, snap, c));
    assert(m.contains_key(KeyView { user, seq: c }));
    assert(m.contains_key(KeyView { user, seq: s }));
    assert(c == s);
}

/// Where there is a version that a reader may see, there is a newest one.
pub proof fn lemma_newest_exists(m: Map<KeyView, ValueView>, user: Seq<char>, snap: u64, s: u64)
    requires
        s <= snap,
        m.contains_key(KeyView { user, seq: s }),
    ensures
        exists|c: u64| newest(m, user, snap, c),
    decreases snap - s,
{
    if !newest(m, user, snap, s) {
        let x = choose|x: u64| s < x <= snap && #[trigger] m.contains_key(KeyView { user, seq: x });
        lemma_newest_exists(m, user, snap, x);
    }
}

/// A lookup finds nothing exactly when there is no version to see.
pub proof fn lemma_lookup_absent(m: Map<KeyView, ValueView>, user: Seq<char>, snap: u64)
    ensures
        lookup(m, user, snap) is Absent <==> (forall|s: u64|
            s <= snap ==> !#[trigger] m.contains_key(KeyView { user, seq: s })),
{
    if exists|s: u64| s <= snap && #[trigger] m.contains_key(KeyView { user, seq: s }) {
        let s = choose|s: u64| s <= snap && #[trigger] m.contains_key(KeyView { user, seq: s });
        lemma_newest_exists(m, user, snap, s);
    }
    if exists|s: u64| newest(m, user, snap, s) {
        let c = choose|s: u64| newest(m, user, snap, s);
        assert(m.contains_key(KeyView { user, seq: c }));
    }
}

/// Two sets of versions that agree on the versions of `user` up to `snap`
/// answer alike.
pub proof fn lemma_lookup_agree(
    a: Map<KeyView, ValueView>,
    b: Map<KeyView, ValueView>,
    user: Seq<char>,
    snap: u64,
)
    requires
        forall|s: u64|
            s <= snap ==> (#[trigger] a.contains_key(KeyView { user, seq: s }) <==> b.contains_key(
                KeyView { user, seq: s },
            )),
        forall|s: u64|
            s <= snap && #[trigger] a.contains_key(KeyView { user, seq: s }) ==> a[KeyView {
                user,
                seq: s,
            }] == b[KeyView { user, seq: s }],
    ensures
        lookup(a, user, snap) == lookup(b, user, snap),
{
    lemma_lookup_absent(a, user, snap);
    lemma_lookup_absent(b, user, snap);
    if exists|s: u64| newest(a, user, snap, s) {
        let c = choose|s: u64| newest(a, user, snap, s);
        assert(b.contains_key(KeyView { user, seq: c }));
        assert(newest(b, user, snap, c)) by {
            assert forall|x: u64| c < x <= snap implies !#[trigger] b.contains_key(
                KeyView { user, seq: x },
            ) by {
                assert(!a.contains_key(KeyView { user, seq: x }));
            }
        }
        lemma_lookup_newest(a, user, snap, c);
        lemma_lookup_newest(b, user, snap, c);
    } else {
        assert(lookup(a, user, snap) is Absent);
        assert forall|s: u64| s <= snap implies !#[trigger] b.contains_key(
            KeyView { user, seq: s },
        ) by {
            assert(!a.contains_key(KeyView { user, seq: s }));
        }
    }
}

/// The keys of [`map_of`] are the keys of the entries.
pub proof fn lemma_map_of_keys(es: Seq<Entry>)
    ensures
        forall|k: KeyView| #[trigger] map_of(es).contains_key(k) <==> has_key(es, k),
    decreases es.len(),
{
    if es.len() > 0 {
        let rest = es.drop_first();
        lemma_map_of_keys(rest);
        assert forall|k: KeyView| #[trigger] map_of(es).contains_key(k) <==> has_key(es, k) by {
            if has_key(es, k) {
                let i = choose|i: int| 0 <= i < es.len() && (#[trigger] es[i]).0 == k;
                if i > 0 {
                    assert(rest[i - 1].0 == k);
                    assert(has_key(rest, k));
                }
            }
            if has_key(rest, k) {
                let i = choose|i: int| 0 <= i < rest.len() && (#[trigger] rest[i]).0 == k;
                assert(es[i + 1].0 == k);
            }
            if es[0].0 == k {
                assert(has_key(es, k));
            }
            assert(map_of(rest).contains_key(k) <==> has_key(rest, k));
        }
    }
}

/// The value of a key is that of its first entry.
pub proof fn lemma_map_of_first(es: Seq<Entry>, i: int)
    requires
        0 <= i < es.len(),
        forall|j: int| 0 <= j < i ==> (#[trigger] es[j]).0 != es[i].0,
    ensures
        map_of(es).contains_key(es[i].0),
        map_of(es)[es[i].0] == es[i].1,
    decreases es.len(),
{
    if i > 0 {
        let rest = es.drop_first();
        assert(rest[i - 1] == es[i]);
        assert forall|j: int| 0 <= j < i - 1 implies (#[trigger] rest[j]).0 != rest[i - 1].0 by {
            assert(rest[j] == es[j + 1]);
        }
        lemma_map_of_first(rest, i - 1);
        assert(es[0].0 != es[i].0);
    }
}

/// In sorted entries each entry is the version of its key.
pub proof fn lemma_map_of_sorted(es: Seq<Entry>)
    requires
        sorted(es),
    ensures
        forall|i: int|
            0 <= i < es.len() ==> map_of(es).contains_key((#[trigger] es[i]).0) && map_of(
                es,
            )[es[i].0] == es[i].1,
{
    broadcast use key::lemma_key_irreflexive;

    assert forall|i: int| 0 <= i < es.len() implies map_of(es).contains_key((#[trigger] es[i]).0)
        && map_of(es)[es[i].0] == es[i].1 by {
        assert forall|j: int| 0 <= j < i implies (#[trigger] es[j]).0 != es[i].0 by {
            assert(es[j].0.lt(es[i].0));
        }
        lemma_map_of_first(es, i);
    }
}

/// The entry at which `(user, snap)` would stand is the newest visible version
/// when it is one of `user`.
pub proof fn lemma_newest_at(es: Seq<Entry>, user: Seq<char>, snap: u64, t: int)
    requires
        ascending(es),
        stands_at(es, KeyView { user, seq: snap }, t),
        t < es.len(),
        es[t].0.user == user,
    ensures
        newest(map_of(es), user, snap, es[t].0.seq),
        map_of(es)[es[t].0] == es[t].1,
{
    broadcast use {
        key::lemma_key_irreflexive,
        key::lemma_key_asymmetric,
        text::lemma_text_irreflexive,
    };

    let m = map_of(es);
    let target = KeyView { user, seq: snap };
    lemma_map_of_keys(es);
    let s = es[t].0.seq;
    assert(s <= snap);
    assert(es[t].0 == KeyView { user, seq: s });
    assert forall|j: int| 0 <= j < t implies (#[trigger] es[j]).0 != es[t].0 by {
        assert(es[j].0.lt(target));
    }
    lemma_map_of_first(es, t);
    assert forall|x: u64| s < x <= snap implies !#[trigger] m.contains_key(
        KeyView { user, seq: x },
    ) by {
        let k = KeyView { user, seq: x };
        if has_key(es, k) {
            let i = choose|i: int| 0 <= i < es.len() && (#[trigger] es[i]).0 == k;
            if i < t {
                assert(es[i].0.lt(target));
            } else if i > t {
                assert(es[t].0.le(es[i].0));
            }
            assert(false);
        }
    }
}

/// A reader that knows where `(user, snap)` would stand has the answer at hand.
pub proof fn lemma_lookup_at(es: Seq<Entry>, user: Seq<char>, snap: u64, t: int)
    requires
        ascending(es),
        stands_at(es, KeyView { user, seq: snap }, t),
    ensures
        lookup(map_of(es), user, snap) == (if t < es.len() && es[t].0.user == user {
            LookupView::of(es[t].1)
        } else {
            LookupView::Absent
        }),
{
    broadcast use {
        key::lemma_key_irreflexive,
        key::lemma_key_asymmetric,
        text::lemma_text_irreflexive,
    };

    let m = map_of(es);
    let target = KeyView { user, seq: snap };
    lemma_map_of_keys(es);
    if t < es.len() && es[t].0.user == user {
        lemma_newest_at(es, user, snap, t);
        assert(es[t].0 == KeyView { user, seq: es[t].0.seq });
        lemma_lookup_newest(m, user, snap, es[t].0.seq);
    } else {
        assert forall|x: u64| x <= snap implies !#[trigger] m.contains_key(
            KeyView { user, seq: x },
        ) by {
            let k = KeyView { user, seq: x };
            if has_key(es, k) {
                let i = choose|i: int| 0 <= i < es.len() && (#[trigger] es[i]).0 == k;
                if i < t {
                    assert(es[i].0.lt(target));
                    assert(false);
                } else {
                    if i > t {
                        assert(es[t].0.le(es[i].0));
                    }
                    text::lemma_text_total(es[t].0.user, user);
                    if text::text_lt(user, es[t].0.user) && text::text_lt(es[t].0.user, user) {
                        text::lemma_text_transitive(user, es[t].0.user, user);
                    }
                    assert(false);
                }
            }
        }
        lemma_lookup_absent(m, user, snap);
    }
}

/// Sorted entries are ascending.
pub proof fn lemma_sorted_ascending(es: Seq<Entry>)
    requires
        sorted(es),
    ensures
        ascending(es),
{
}

/// Inserting an entry where its key stands keeps the order and adds the version.
pub proof fn lemma_insert_sorted(es: Seq<Entry>, t: int, e: Entry)
    requires
        sorted(es),
        stands_at(es, e.0, t),
        !has_key(es, e.0),
    ensures
        sorted(es.insert(t, e)),
        map_of(es.insert(t, e)) == map_of(es).insert(e.0, e.1),
{
    broadcast use {key::lemma_key_irreflexive, key::lemma_key_transitive};

    let ns = es.insert(t, e);
    assert forall|i: int, j: int| 0 <= i < j < ns.len() implies (#[trigger] ns[i]).0.lt(
        (#[trigger] ns[j]).0,
    ) by {
        if t < es.len() {
            assert(es[t].0 != e.0);
            key::lemma_key_total(es[t].0, e.0);
        }
        if i < t {
            assert(ns[i] == es[i]);
            if j < t {
                assert(ns[j] == es[j]);
            } else if j > t {
                assert(ns[j] == es[j - 1]);
            }
        } else if i == t {
            assert(ns[j] == es[j - 1]);
            if j - 1 > t {
                assert(es[t].0.lt(es[j - 1].0));
            }
        } else {
            assert(ns[i] == es[i - 1] && ns[j] == es[j - 1]);
        }
    }
    lemma_map_of_keys(es);
    lemma_map_of_keys(ns);
    lemma_map_of_sorted(es);
    lemma_map_of_sorted(ns);
    let a = map_of(ns);
    let b = map_of(es).insert(e.0, e.1);
    assert forall|k: KeyView| #[trigger] a.contains_key(k) <==> b.contains_key(k) by {
        if a.contains_key(k) {
            let i = choose|i: int| 0 <= i < ns.len() && (#[trigger] ns[i]).0 == k;
            if i < t {
                assert(es[i].0 == k);
            } else if i > t {
                assert(es[i - 1].0 == k);
            }
        }
        if b.contains_key(k) && k != e.0 {
            let i = choose|i: int| 0 <= i < es.len() && (#[trigger] es[i]).0 == k;
            if i < t {
                assert(ns[i].0 == k);
            } else {
                assert(ns[i + 1].0 == k);
            }
        }
        if k == e.0 {
            assert(ns[t].0 == k);
        }
    }
    assert forall|k: KeyView| #[trigger] a.contains_key(k) implies a[k] == b[k] by {
        let i = choose|i: int| 0 <= i < ns.len() && (#[trigger] ns[i]).0 == k;
        assert(a[k] == ns[i].1);
        if i < t {
            assert(ns[i] == es[i]);
        } else if i > t {
            assert(ns[i] == es[i - 1]);
        }
    }
    assert(a =~= b);
}

/// A lookup finds a version exactly when there is one that the reader may see, and then
/// what it finds is the value of that version of the key which no other one that the
/// reader may see is newer than.
pub proof fn law_lookup(m: Map<KeyView, ValueView>, user: Seq<char>, snap: u64)
    ensures
        lookup(m, user, snap) is Absent <==> (forall|s: u64|
            s <= snap ==> !#[trigger] m.contains_key(KeyView { user, seq: s })),
        forall|s: u64|
            s <= snap && #[trigger] m.contains_key(KeyView { user, seq: s }) && (forall|x: u64|
                s < x <= snap ==> !#[trigger] m.contains_key(KeyView { user, seq: x })) ==> (
            match m[KeyView { user, seq: s }] {
                ValueView::Put(t) => lookup(m, user, snap) == LookupView::Found(t),
                ValueView::Delete => lookup(m, user, snap) is Deleted,
            }),
{
    lemma_lookup_absent(m, user, snap);
    assert forall|s: u64|
        s <= snap && #[trigger] m.contains_key(KeyView { user, seq: s }) && (forall|x: u64|
            s < x <= snap ==> !#[trigger] m.contains_key(KeyView { user, seq: x })) implies (
    match m[KeyView { user, seq: s }] {
        ValueView::Put(t) => lookup(m, user, snap) == LookupView::Found(t),
        ValueView::Delete => lookup(m, user, snap) is Deleted,
    }) by {
        assert(newest(m, user, snap, s));
        lemma_lookup_newest(m, user, snap, s);
    }
}

/// Entries hold a version exactly when one of them has its key, and the first one that
/// has it counts.
pub proof fn law_versions_of_entries(es: Seq<Entry>, k: KeyView)
    ensures
        map_of(es).contains_key(k) <==> exists|i: int|
            0 <= i < es.len() && (#[trigger] es[i]).0 == k,
        forall|i: int|
            0 <= i < es.len() && (#[trigger] es[i]).0 == k && (forall|j: int|
                0 <= j < i ==> (#[trigger] es[j]).0 != k) ==> map_of(es)[k] == es[i].1,
{
    lemma_map_of_keys(es);
    assert forall|i: int|
        0 <= i < es.len() && (#[trigger] es[i]).0 == k && (forall|j: int|
            0 <= j < i ==> (#[trigger] es[j]).0 != k) implies map_of(es)[k] == es[i].1 by {
        lemma_map_of_first(es, i);
    }
}

/// Bytes that entries take in a file: for each its texts and twelve bytes more.
pub open spec fn volume(es: Seq<Entry>) -> nat
    decreases es.len(),
{
    if es.len() == 0 {
        0
    } else {
        volume(es.drop_last()) + 12 + encode_utf8(es.last().0.user).len() + (match es.last().1 {
            ValueView::Put(s) => encode_utf8(s).len(),
            ValueView::Delete => 0,
        })
    }
}

/// Whether each of these entries has room behind a block of 4096 bytes in a block of
/// 65535, and all of them take less than two gibibytes.
pub open spec fn are_small(es: Seq<Entry>) -> bool {
    &&& 2 * volume(es) <= 0xFFFF_FFFF
    &&& forall|i: int|
        0 <= i < es.len() ==> 4096 + 12 + encode_utf8((#[trigger] es[i]).0.user).len() + (
        match es[i].1 {
            ValueView::Put(s) => encode_utf8(s).len(),
            ValueView::Delete => 0,
        }) <= 65535
}

/// Entries with texts of at most 61427 bytes together, key and value, are small, as
/// long as they take at most 2147483647 bytes in all.
pub proof fn law_are_small(es: Seq<Entry>)
    requires
        volume(es) <= 2147483647,
        forall|i: int|
            0 <= i < es.len() ==> encode_utf8((#[trigger] es[i]).0.user).len() + (match es[i].1 {
                ValueView::Put(s) => encode_utf8(s).len(),
                ValueView::Delete => 0,
            }) <= 61427,
    ensures
        are_small(es),
{
}

/// The volume of one entry more is that of the others, the bytes of its texts, and
/// twelve.
pub proof fn law_volume(es: Seq<Entry>, k: KeyView, s: Seq<char>)
    ensures
        volume(Seq::<Entry>::empty()) == 0,
        volume(es.push((k, ValueView::Put(s)))) == volume(es) + 12 + encode_utf8(k.user).len()
            + encode_utf8(s).len(),
        volume(es.push((k, ValueView::Delete))) == volume(es) + 12 + encode_utf8(k.user).len(),
{
    assert(es.push((k, ValueView::Put(s))).drop_last() =~= es);
    assert(es.push((k, ValueView::Delete)).drop_last() =~= es);
}

} // verus!
