//! A map from texts to values that keeps its keys in order.

use vstd::prelude::*;

use crate::common::text;

verus! {

/// Pairs of a text and a value, in the order of the texts.
pub struct SortedMap<V> {
    items: Vec<(String, V)>,
}

/// The map that pairs describe. Of several pairs with the same text the last one
/// counts.
pub open spec fn map_of_pairs<V>(es: Seq<(Seq<char>, V)>) -> Map<Seq<char>, V>
    decreases es.len(),
{
    if es.len() == 0 {
        Map::empty()
    } else {
        map_of_pairs(es.drop_last()).insert(es.last().0, es.last().1)
    }
}

/// Whether the texts of pairs stand in strictly ascending order.
pub open spec fn keys_ascend<V>(es: Seq<(Seq<char>, V)>) -> bool {
    forall|i: int, j: int|
        0 <= i < j < es.len() ==> text::text_lt((#[trigger] es[i]).0, (#[trigger] es[j]).0)
}

/// The map of pairs in order holds exactly these pairs.
pub proof fn lemma_map_of_pairs<V>(es: Seq<(Seq<char>, V)>)
    requires
        keys_ascend(es),
    ensures
        forall|i: int|
            0 <= i < es.len() ==> map_of_pairs(es).contains_key((#[trigger] es[i]).0)
                && map_of_pairs(es)[es[i].0] == es[i].1,
        forall|k: Seq<char>| #[trigger]
            map_of_pairs(es).contains_key(k) ==> exists|i: int|
                0 <= i < es.len() && (#[trigger] es[i]).0 == k,
    decreases es.len(),
{
    broadcast use text::lemma_text_irreflexive;

    if es.len() > 0 {
        let prev = es.drop_last();
        assert(keys_ascend(prev)) by {
            assert forall|i: int, j: int| 0 <= i < j < prev.len() implies text::text_lt(
                (#[trigger] prev[i]).0,
                (#[trigger] prev[j]).0,
            ) by {
                assert(prev[i] == es[i] && prev[j] == es[j]);
            }
        }
        lemma_map_of_pairs(prev);
        assert forall|i: int| 0 <= i < es.len() implies map_of_pairs(es).contains_key(
            (#[trigger] es[i]).0,
        ) && map_of_pairs(es)[es[i].0] == es[i].1 by {
            if i < prev.len() {
                assert(prev[i] == es[i]);
                assert(text::text_lt(es[i].0, es[es.len() - 1].0));
            }
        }
        assert forall|k: Seq<char>| #[trigger] map_of_pairs(es).contains_key(k) implies exists|
            i: int,
        |
            0 <= i < es.len() && (#[trigger] es[i]).0 == k by {
            if k == es.last().0 {
                assert(es[es.len() - 1].0 == k);
            } else {
                assert(map_of_pairs(prev).contains_key(k));
                let i = choose|i: int| 0 <= i < prev.len() && (#[trigger] prev[i]).0 == k;
                assert(es[i].0 == k);
            }
        }
    }
}

/// Two lists of pairs in order that hold the same pairs but for one key describe
/// maps that differ in that key.
proof fn lemma_map_insert<V>(es: Seq<(Seq<char>, V)>, ns: Seq<(Seq<char>, V)>, k: Seq<char>, v: V)
    requires
        keys_ascend(es),
        keys_ascend(ns),
        exists|i: int| 0 <= i < ns.len() && #[trigger] ns[i] == (k, v),
        forall|i: int|
            0 <= i < es.len() && (#[trigger] es[i]).0 != k ==> exists|j: int|
                0 <= j < ns.len() && #[trigger] ns[j] == es[i],
        forall|j: int|
            0 <= j < ns.len() && (#[trigger] ns[j]).0 != k ==> exists|i: int|
                0 <= i < es.len() && #[trigger] es[i] == ns[j],
    ensures
        map_of_pairs(ns) == map_of_pairs(es).insert(k, v),
{
    lemma_map_of_pairs(es);
    lemma_map_of_pairs(ns);
    let (a, b) = (map_of_pairs(ns), map_of_pairs(es).insert(k, v));
    assert forall|x: Seq<char>| #[trigger] a.contains_key(x) <==> b.contains_key(x) by {
        if a.contains_key(x) && x != k {
            let j = choose|j: int| 0 <= j < ns.len() && (#[trigger] ns[j]).0 == x;
            let i = choose|i: int| 0 <= i < es.len() && #[trigger] es[i] == ns[j];
            assert(map_of_pairs(es).contains_key(es[i].0));
        }
        if b.contains_key(x) && x != k {
            let i = choose|i: int| 0 <= i < es.len() && (#[trigger] es[i]).0 == x;
            let j = choose|j: int| 0 <= j < ns.len() && #[trigger] ns[j] == es[i];
            assert(a.contains_key(ns[j].0));
        }
    }
    assert forall|x: Seq<char>| #[trigger] a.contains_key(x) implies a[x] == b[x] by {
        let j = choose|j: int| 0 <= j < ns.len() && (#[trigger] ns[j]).0 == x;
        if x == k {
            let i = choose|i: int| 0 <= i < ns.len() && #[trigger] ns[i] == (k, v);
            assert(a[ns[i].0] == v);
        } else {
            let i = choose|i: int| 0 <= i < es.len() && #[trigger] es[i] == ns[j];
            assert(map_of_pairs(es)[es[i].0] == es[i].1);
        }
    }
    assert(a =~= b);
}

impl<V> View for SortedMap<V> {
    type V = Map<Seq<char>, V>;

    /// The map.
    open spec fn view(&self) -> Map<Seq<char>, V> {
        map_of_pairs(self.pairs())
    }
}

impl<V> SortedMap<V> {
    /// The pairs in the order of their texts.
    pub closed spec fn pairs(&self) -> Seq<(Seq<char>, V)> {
        Seq::new(self.items@.len(), |i: int| (self.items@[i].0@, self.items@[i].1))
    }

    /// The texts ascend, so none occurs twice.
    pub open spec fn wf(&self) -> bool {
        keys_ascend(self.pairs())
    }

    /// An empty map.
    pub fn new() -> (r: Self)
        ensures
            r.wf(),
            r.pairs() == Seq::<(Seq<char>, V)>::empty(),
            r@ == Map::<Seq<char>, V>::empty(),
    {
        let r = SortedMap { items: Vec::new() };
        assert(r.pairs() =~= Seq::<(Seq<char>, V)>::empty());
        r
    }

    /// Where the first pair stands whose text does not come before `key`.
    fn find(&self, key: &str) -> (p: usize)
        requires
            self.wf(),
        ensures
            p <= self.pairs().len(),
            forall|i: int| 0 <= i < p ==> text::text_lt((#[trigger] self.pairs()[i]).0, key@),
            forall|i: int|
                p <= i < self.pairs().len() ==> !text::text_lt(
                    (#[trigger] self.pairs()[i]).0,
                    key@,
                ),
    {
        broadcast use text::lemma_text_transitive;

        let ghost ps = self.pairs();
        let mut lo: usize = 0;
        let mut hi: usize = self.items.len();
        while lo < hi
            invariant
                self.wf(),
                ps == self.pairs(),
                lo <= hi <= ps.len() == self.items@.len(),
                forall|i: int| 0 <= i < lo ==> text::text_lt((#[trigger] ps[i]).0, key@),
                forall|i: int|
                    hi <= i < ps.len() ==> !text::text_lt((#[trigger] ps[i]).0, key@),
            decreases hi - lo,
        {
            broadcast use text::lemma_text_transitive;

            let mid: usize = lo + (hi - lo) / 2;
            assert(ps[mid as int].0 == self.items@[mid as int].0@);
            if text::precedes(self.items[mid].0.as_str(), key) {
                assert forall|i: int| 0 <= i < mid + 1 implies text::text_lt(
                    (#[trigger] ps[i]).0,
                    key@,
                ) by {
                    if i < mid {
                        assert(text::text_lt(ps[i].0, ps[mid as int].0));
                    }
                }
                lo = mid + 1;
            } else {
                assert forall|i: int| mid <= i < ps.len() implies !text::text_lt(
                    (#[trigger] ps[i]).0,
                    key@,
                ) by {
                    if i > mid && text::text_lt(ps[i].0, key@) {
                        assert(text::text_lt(ps[mid as int].0, ps[i].0));
                    }
                }
                hi = mid;
            }
        }
        lo
    }

    /// The value of `key`.
    pub fn get(&self, key: &str) -> (r: Option<&V>)
        requires
            self.wf(),
        ensures
            match r {
                Some(v) => self@.contains_key(key@) && self@[key@] == *v,
                None => !self@.contains_key(key@),
            },
    {
        broadcast use text::lemma_text_irreflexive;

        let p: usize = self.find(key);
        proof {
            lemma_map_of_pairs(self.pairs());
        }
        if p < self.items.len() && text::same(self.items[p].0.as_str(), key) {
            assert(self.pairs()[p as int].0 == key@);
            return Some(&self.items[p].1);
        }
        proof {
            if self@.contains_key(key@) {
                let i = choose|i: int|
                    0 <= i < self.pairs().len() && (#[trigger] self.pairs()[i]).0 == key@;
                assert(i >= p);
                if i > p {
                    assert(text::text_lt(self.pairs()[p as int].0, self.pairs()[i].0));
                }
                assert(i == p);
            }
        }
        None
    }

    /// Gives `key` the value `value`.
    pub fn insert(&mut self, key: String, value: V)
        requires
            old(self).wf(),
        ensures
            final(self).wf(),
            final(self)@ == old(self)@.insert(key@, value),
    {
        broadcast use {text::lemma_text_irreflexive, text::lemma_text_transitive};

        let ghost es = self.pairs();
        let ghost k = key@;
        let p: usize = self.find(key.as_str());
        if p < self.items.len() && text::same(self.items[p].0.as_str(), key.as_str()) {
            assert(es[p as int].0 == k);
            self.items.set(p, (key, value));
            let ghost ns = self.pairs();
            assert(ns =~= es.update(p as int, (k, value)));
            assert(keys_ascend(ns)) by {
                assert forall|i: int, j: int| 0 <= i < j < ns.len() implies text::text_lt(
                    (#[trigger] ns[i]).0,
                    (#[trigger] ns[j]).0,
                ) by {
                    assert(ns[i].0 == es[i].0 && ns[j].0 == es[j].0);
                }
            }
            proof {
                assert(ns[p as int] == (k, value));
                assert forall|i: int| 0 <= i < es.len() && (#[trigger] es[i]).0 != k implies exists|
                    j: int,
                |
                    0 <= j < ns.len() && #[trigger] ns[j] == es[i] by {
                    assert(ns[i] == es[i]);
                }
                assert forall|j: int| 0 <= j < ns.len() && (#[trigger] ns[j]).0 != k implies exists|
                    i: int,
                |
                    0 <= i < es.len() && #[trigger] es[i] == ns[j] by {
                    assert(es[j] == ns[j]);
                }
                lemma_map_insert(es, ns, k, value);
            }
        } else {
            self.items.insert(p, (key, value));
            let ghost ns = self.pairs();
            assert(ns =~= es.insert(p as int, (k, value)));
            proof {
                assert(p < es.len() ==> es[p as int].0 != k);
                lemma_insert_ascends(es, p as int, k, value);
                assert(ns[p as int] == (k, value));
                assert forall|i: int| 0 <= i < es.len() && (#[trigger] es[i]).0 != k implies exists|
                    j: int,
                |
                    0 <= j < ns.len() && #[trigger] ns[j] == es[i] by {
                    if i < p {
                        assert(ns[i] == es[i]);
                    } else {
                        assert(ns[i + 1] == es[i]);
                    }
                }
                assert forall|j: int| 0 <= j < ns.len() && (#[trigger] ns[j]).0 != k implies exists|
                    i: int,
                |
                    0 <= i < es.len() && #[trigger] es[i] == ns[j] by {
                    if j < p {
                        assert(es[j] == ns[j]);
                    } else {
                        assert(es[j - 1] == ns[j]);
                    }
                }
                lemma_map_insert(es, ns, k, value);
            }
        }
    }

    /// Number of pairs.
    pub fn len(&self) -> (n: usize)
        ensures
            n == self.pairs().len(),
    {
        self.items.len()
    }

    /// Whether there are no pairs.
    pub fn is_empty(&self) -> (r: bool)
        ensures
            r == (self.pairs().len() == 0),
    {
        self.items.len() == 0
    }

    /// The pair at position `i`.
    pub fn at(&self, i: usize) -> (r: (&str, &V))
        requires
            i < self.pairs().len(),
        ensures
            r.0@ == self.pairs()[i as int].0,
            *r.1 == self.pairs()[i as int].1,
    {
        (self.items[i].0.as_str(), &self.items[i].1)
    }

    /// Adds a pair whose text comes after all others.
    pub fn push(&mut self, key: String, value: V)
        requires
            old(self).wf(),
            old(self).pairs().len() > 0 ==> text::text_lt(old(self).pairs().last().0, key@),
        ensures
            final(self).wf(),
            final(self).pairs() == old(self).pairs().push((key@, value)),
            final(self)@ == old(self)@.insert(key@, value),
    {
        broadcast use text::lemma_text_transitive;

        let ghost es = self.pairs();
        let ghost k = key@;
        self.items.push((key, value));
        let ghost ns = self.pairs();
        assert(ns =~= es.push((k, value)));
        assert(ns.drop_last() =~= es);
        assert(keys_ascend(ns)) by {
            assert forall|i: int, j: int| 0 <= i < j < ns.len() implies text::text_lt(
                (#[trigger] ns[i]).0,
                (#[trigger] ns[j]).0,
            ) by {
                assert(ns[i] == es[i]);
                if j < es.len() {
                    assert(ns[j] == es[j]);
                } else if i < es.len() - 1 {
                    assert(text::text_lt(es[i].0, es[es.len() - 1].0));
                }
            }
        }
    }
}

/// Inserting a pair where its text belongs keeps the order.
proof fn lemma_insert_ascends<V>(es: Seq<(Seq<char>, V)>, p: int, k: Seq<char>, v: V)
    requires
        keys_ascend(es),
        0 <= p <= es.len(),
        forall|i: int| 0 <= i < p ==> text::text_lt((#[trigger] es[i]).0, k),
        forall|i: int| p <= i < es.len() ==> !text::text_lt((#[trigger] es[i]).0, k),
        p < es.len() ==> es[p].0 != k,
    ensures
        keys_ascend(es.insert(p, (k, v))),
{
    broadcast use text::lemma_text_transitive;

    let ns = es.insert(p, (k, v));
    assert forall|i: int, j: int| 0 <= i < j < ns.len() implies text::text_lt(
        (#[trigger] ns[i]).0,
        (#[trigger] ns[j]).0,
    ) by {
        if p < es.len() {
            text::lemma_text_total(es[p].0, k);
        }
        if i < p {
            assert(ns[i] == es[i]);
            if j < p {
                assert(ns[j] == es[j]);
            } else if j > p {
                assert(ns[j] == es[j - 1]);
            }
        } else if i == p {
            assert(ns[j] == es[j - 1]);
            if j - 1 > p {
                assert(text::text_lt(es[p].0, es[j - 1].0));
            }
        } else {
            assert(ns[i] == es[i - 1] && ns[j] == es[j - 1]);
        }
    }
}

} // verus!
