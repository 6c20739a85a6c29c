//! A skip list that only grows.
//!
//! Nodes stand in one vector. Level zero links all of them in key order, and
//! each higher level links the nodes that are tall enough to reach it.

use vstd::prelude::*;

use crate::common::key;
use crate::common::key::{Key, KeyView};
use crate::common::lookup::LookupView;
use crate::common::text;
use crate::common::value::{Value, ValueView};
use crate::common::versions;
use crate::common::versions::Entry;
use crate::memtable::list::node::Node;

pub mod node;

verus! {

/// Maximum number of levels.
pub const MAX_HEIGHT: usize = 16;

/// A node grows by one level with a chance of one in this many.
pub const BRANCHING: u64 = 4;

/// The state from which heights are drawn.
const SEED: u64 = 0x9E37_79B9_7F4A_7C15;

/// The state that follows `x`: xorshift over 64 bits.
spec fn shifted(x: u64) -> u64 {
    let a = x ^ (x << 13);
    let b = a ^ (a >> 7);
    b ^ (b << 17)
}

/// The height that is drawn from the state `x` by a node that has `height`
/// levels already, and the state behind the draw. Each new state that
/// [`BRANCHING`] divides adds a level.
spec fn drawn(x: u64, height: nat) -> (nat, u64)
    decreases MAX_HEIGHT - height,
{
    let y = shifted(x);
    if height < MAX_HEIGHT && y % BRANCHING == 0 {
        drawn(y, height + 1)
    } else {
        (height, y)
    }
}

/// The first position behind `p` whose height is above `level`, or the length.
pub open spec fn next_at(heights: Seq<nat>, p: int, level: int) -> int
    decreases heights.len() - p,
{
    if p + 1 >= heights.len() {
        heights.len() as int
    } else if heights[p + 1] > level {
        p + 1
    } else {
        next_at(heights, p + 1, level)
    }
}

proof fn lemma_next_bounds(heights: Seq<nat>, p: int, level: int)
    requires
        -1 <= p < heights.len(),
    ensures
        p < next_at(heights, p, level) <= heights.len(),
        next_at(heights, p, level) < heights.len() ==> heights[next_at(heights, p, level)] > level,
        forall|i: int| p < i < next_at(heights, p, level) ==> (#[trigger] heights[i]) <= level,
    decreases heights.len() - p,
{
    if p + 1 < heights.len() && heights[p + 1] <= level {
        lemma_next_bounds(heights, p + 1, level);
    }
}

/// A position with no tall one before it is the next one.
proof fn lemma_next_is(heights: Seq<nat>, p: int, level: int, q: int)
    requires
        -1 <= p < q <= heights.len(),
        q < heights.len() ==> heights[q] > level,
        forall|i: int| p < i < q ==> (#[trigger] heights[i]) <= level,
    ensures
        next_at(heights, p, level) == q,
{
    if p < heights.len() {
        lemma_next_bounds(heights, p, level);
        let r = next_at(heights, p, level);
        if r < q {
            assert(heights[r] <= level);
        }
        if q < r {
            assert(heights[q] <= level);
        }
    }
}

/// How the next positions move when a node of height `h` comes in at `t`.
proof fn lemma_next_insert(heights: Seq<nat>, t: int, h: nat, p: int, level: int)
    requires
        0 <= t <= heights.len(),
        -1 <= p <= heights.len(),
    ensures
        p < t ==> next_at(heights.insert(t, h), p, level) == (if next_at(heights, p, level) < t {
            next_at(heights, p, level)
        } else if h > level {
            t
        } else {
            next_at(heights, p, level) + 1
        }),
        p >= t ==> next_at(heights.insert(t, h), p, level) == next_at(heights, p - 1, level) + 1,
{
    let hs = heights.insert(t, h);
    let from = if p < t { p } else { p - 1 };
    if from < heights.len() {
        lemma_next_bounds(heights, from, level);
    }
    let q = next_at(heights, from, level);
    if p < t {
        if q < t {
            assert forall|i: int| p < i < q implies (#[trigger] hs[i]) <= level by {
                assert(heights[i] <= level);
            }
            lemma_next_is(hs, p, level, q);
        } else if h > level {
            assert forall|i: int| p < i < t implies (#[trigger] hs[i]) <= level by {
                assert(heights[i] <= level);
            }
            lemma_next_is(hs, p, level, t);
        } else {
            assert forall|i: int| p < i < q + 1 implies (#[trigger] hs[i]) <= level by {
                if i < t {
                    assert(heights[i] <= level);
                } else if i > t {
                    assert(heights[i - 1] <= level);
                }
            }
            lemma_next_is(hs, p, level, q + 1);
        }
    } else {
        assert forall|i: int| p < i < q + 1 implies (#[trigger] hs[i]) <= level by {
            assert(heights[i - 1] <= level);
        }
        lemma_next_is(hs, p, level, q + 1);
    }
}

/// Stores versions in key order.
pub struct SkipList {
    head: Vec<Option<usize>>,
    nodes: Vec<Node>,
    max_height: usize,
    mem_usage: usize,
    rng: u64,
    order: Ghost<Seq<usize>>,
    bytes: Ghost<nat>,
}

/// Bytes that the texts and the sequence numbers of versions take.
pub open spec fn texts_bytes(es: Seq<Entry>) -> nat
    decreases es.len(),
{
    if es.len() == 0 {
        0
    } else {
        texts_bytes(es.drop_last()) + node::text_bytes(es.last().0, es.last().1)
    }
}

/// One more version takes its own bytes more.
proof fn lemma_texts_insert(es: Seq<Entry>, t: int, e: Entry)
    requires
        0 <= t <= es.len(),
    ensures
        texts_bytes(es.insert(t, e)) == texts_bytes(es) + node::text_bytes(e.0, e.1),
    decreases es.len() - t,
{
    let us = es.insert(t, e);
    if t == es.len() {
        assert(us.drop_last() =~= es);
    } else {
        assert(us.drop_last() =~= es.drop_last().insert(t, e));
        assert(us.last() == es.last());
        lemma_texts_insert(es.drop_last(), t, e);
    }
}

impl View for SkipList {
    type V = Map<KeyView, ValueView>;

    /// The versions in the list.
    open spec fn view(&self) -> Map<KeyView, ValueView> {
        versions::map_of(self.entries())
    }
}

impl SkipList {
    /// The versions in key order.
    pub closed spec fn entries(&self) -> Seq<Entry> {
        Seq::new(
            self.order@.len(),
            |i: int| (self.nodes@[self.order@[i] as int].key@, self.nodes@[self.order@[i] as int].value@),
        )
    }

    /// Bytes that the nodes take, in the arithmetic of machine words.
    pub closed spec fn usage(&self) -> usize {
        self.mem_usage
    }

    /// Bytes that the nodes take.
    pub closed spec fn bytes(&self) -> nat {
        self.bytes@
    }

    spec fn heights(&self) -> Seq<nat> {
        Seq::new(self.order@.len(), |i: int| self.nodes@[self.order@[i] as int].tower@.len())
    }

    /// The links that leave position `p`, where -1 is the head.
    spec fn links(&self, p: int) -> Seq<Option<usize>> {
        if p < 0 {
            self.head@
        } else {
            self.nodes@[self.order@[p] as int].tower@
        }
    }

    /// The link to position `q`.
    spec fn link_to(&self, q: int) -> Option<usize> {
        if q < self.order@.len() {
            Some(self.order@[q])
        } else {
            None
        }
    }

    /// Whether `link` is the place of position `p` in the vector of nodes.
    spec fn at(&self, link: Option<usize>, p: int) -> bool {
        match link {
            None => p == -1,
            Some(i) => 0 <= p < self.order@.len() && self.order@[p] == i,
        }
    }

    spec fn shape(&self) -> bool {
        &&& self.head@.len() == MAX_HEIGHT
        &&& 1 <= self.max_height <= MAX_HEIGHT
        &&& self.order@.len() == self.nodes@.len()
        &&& forall|p: int|
            0 <= p < self.order@.len() ==> #[trigger] self.order@[p] < self.nodes@.len()
        &&& forall|i: int|
            0 <= i < self.nodes@.len() ==> 1 <= (#[trigger] self.nodes@[i]).tower@.len()
                <= self.max_height
    }

    spec fn linked(&self) -> bool {
        forall|p: int, l: int|
            -1 <= p < self.order@.len() && 0 <= l < self.links(p).len()
                ==> #[trigger] self.links(p)[l] == self.link_to(next_at(self.heights(), p, l))
    }

    /// The nodes take at least the bytes of their texts, and the count of the bytes
    /// is right as long as it fits a machine word.
    spec fn counted(&self) -> bool {
        &&& self.bytes@ >= texts_bytes(self.entries())
        &&& self.entries().len() == 0 ==> self.bytes@ == 0
        &&& self.bytes@ <= usize::MAX ==> self.mem_usage == self.bytes@
    }

    /// The links of every level run through the nodes of that level in key order.
    pub closed spec fn wf(&self) -> bool {
        &&& self.shape()
        &&& self.linked()
        &&& versions::sorted(self.entries())
        &&& self.counted()
    }

    /// What the memory usage tells of the versions.
    pub proof fn lemma_usage(&self)
        requires
            self.wf(),
        ensures
            self.bytes() >= texts_bytes(self.entries()),
            self.entries().len() == 0 ==> self.bytes() == 0,
            self.bytes() <= usize::MAX ==> self.usage() == self.bytes(),
    {
    }

    /// A list in good order holds its versions sorted by key.
    pub proof fn lemma_sorted(&self)
        requires
            self.wf(),
        ensures
            versions::sorted(self.entries()),
    {
    }

    /// A new list without versions.
    pub fn new() -> (r: Self)
        ensures
            r.wf(),
            r.entries() == Seq::<Entry>::empty(),
            r@ == Map::<KeyView, ValueView>::empty(),
            r.usage() == 0,
            r.bytes() == 0,
    {
        let mut head: Vec<Option<usize>> = Vec::new();
        while head.len() < MAX_HEIGHT
            invariant
                head@.len() <= MAX_HEIGHT,
                forall|i: int| 0 <= i < head@.len() ==> head@[i] is None,
            decreases MAX_HEIGHT - head@.len(),
        {
            head.push(None);
        }
        let r = SkipList {
            head,
            nodes: Vec::new(),
            max_height: 1,
            mem_usage: 0,
            rng: SEED | 1,
            order: Ghost(Seq::empty()),
            bytes: Ghost(0),
        };
        assert(r.entries() =~= Seq::<Entry>::empty());
        r
    }

    /// Number of versions.
    pub fn len(&self) -> (n: usize)
        requires
            self.wf(),
        ensures
            n == self.entries().len(),
    {
        self.nodes.len()
    }

    /// Whether there are no versions.
    pub fn is_empty(&self) -> (r: bool)
        requires
            self.wf(),
        ensures
            r == (self.entries().len() == 0),
    {
        self.len() == 0
    }

    /// Bytes that the nodes take.
    pub fn mem_usage(&self) -> (n: usize)
        ensures
            n == self.usage(),
    {
        self.mem_usage
    }

    /// The link of `level` that leaves a node, or the head.
    fn slot(&self, pred: Option<usize>, level: usize, Ghost(p): Ghost<int>) -> (r: Option<usize>)
        requires
            self.shape(),
            self.linked(),
            self.at(pred, p),
            level < self.links(p).len(),
        ensures
            r == self.link_to(next_at(self.heights(), p, level as int)),
    {
        assert(self.links(p)[level as int] == self.link_to(
            next_at(self.heights(), p, level as int),
        ));
        match pred {
            Some(node) => self.nodes[node].tower[level],
            None => self.head[level],
        }
    }

    /// Draws the height of a new node.
    fn random_height(&mut self) -> (height: usize)
        ensures
            1 <= height <= MAX_HEIGHT,
            (height as nat, final(self).rng) == drawn(old(self).rng, 1),
            final(self).head == old(self).head,
            final(self).nodes == old(self).nodes,
            final(self).max_height == old(self).max_height,
            final(self).mem_usage == old(self).mem_usage,
            final(self).order == old(self).order,
            final(self).bytes == old(self).bytes,
    {
        let mut x: u64 = self.rng;
        let mut height: usize = 1;
        loop
            invariant_except_break
                drawn(x, height as nat) == drawn(self.rng, 1),
            invariant
                1 <= height <= MAX_HEIGHT,
            ensures
                (height as nat, x) == drawn(self.rng, 1),
            decreases MAX_HEIGHT - height,
        {
            x = x ^ (x << 13);
            x = x ^ (x >> 7);
            x = x ^ (x << 17);
            if height < MAX_HEIGHT && x % BRANCHING == 0 {
                height += 1;
            } else {
                break;
            }
        }
        self.rng = x;
        height
    }

    /// Whether `p` is the last position of its level before `target`.
    spec fn pred_at(&self, target: KeyView, level: int, p: int) -> bool {
        &&& -1 <= p < self.order@.len()
        &&& level < self.links(p).len()
        &&& p >= 0 ==> self.entries()[p].0.lt(target)
        &&& next_at(self.heights(), p, level) < self.order@.len() ==> !self.entries()[next_at(
            self.heights(),
            p,
            level,
        )].0.lt(target)
    }

    /// Walks along `level` from position `p` to the last node before the key.
    /// Returns that node, its position and its successor.
    fn walk(&self, key: &str, seq: u64, level: usize, from: Option<usize>, Ghost(p): Ghost<int>)
        -> (r: (Option<usize>, Option<usize>, Ghost<int>))
        requires
            self.wf(),
            self.at(from, p),
            level < self.links(p).len(),
            p >= 0 ==> self.entries()[p].0.lt(KeyView { user: key@, seq }),
        ensures
            self.at(r.0, r.2@),
            self.pred_at(KeyView { user: key@, seq }, level as int, r.2@),
            r.1 == self.link_to(next_at(self.heights(), r.2@, level as int)),
            r.2@ >= p,
    {
        let ghost target = KeyView { user: key@, seq };
        let mut pred: Option<usize> = from;
        let ghost mut pp: int = p;
        let mut curr: Option<usize> = self.slot(pred, level, Ghost(pp));
        loop
            invariant
                self.wf(),
                target == (KeyView { user: key@, seq }),
                self.at(pred, pp),
                level < self.links(pp).len(),
                pp >= p,
                pp >= 0 ==> self.entries()[pp].0.lt(target),
                curr == self.link_to(next_at(self.heights(), pp, level as int)),
            ensures
                self.at(pred, pp),
                self.pred_at(target, level as int, pp),
                curr == self.link_to(next_at(self.heights(), pp, level as int)),
                pp >= p,
            decreases self.order@.len() - pp,
        {
            let ghost q = next_at(self.heights(), pp, level as int);
            proof {
                lemma_next_bounds(self.heights(), pp, level as int);
            }
            match curr {
                None => {
                    break;
                },
                Some(i) => {
                    assert(self.order@[q] == i);
                    assert(self.nodes@[i as int].key@ == self.entries()[q].0);
                    if self.nodes[i].key.before(key, seq) {
                        pred = curr;
                        proof {
                            pp = q;
                        }
                        curr = self.slot(pred, level, Ghost(pp));
                    } else {
                        break;
                    }
                },
            }
        }
        (pred, curr, Ghost(pp))
    }

    /// At level zero the last position before a key is next to where it stands.
    proof fn lemma_bottom(&self, target: KeyView, p: int)
        requires
            self.wf(),
            self.pred_at(target, 0, p),
        ensures
            next_at(self.heights(), p, 0) == p + 1,
            versions::stands_at(self.entries(), target, p + 1),
    {
        broadcast use key::lemma_key_transitive;

        let es = self.entries();
        if p + 1 < self.order@.len() {
            assert(self.heights()[p + 1] >= 1);
        }
        assert forall|i: int| 0 <= i < p + 1 implies (#[trigger] es[i]).0.lt(target) by {
            if i < p {
                assert(es[i].0.lt(es[p].0));
            }
        }
    }

    /// The first node that is not before the key.
    fn seek(&self, key: &str, seq: u64) -> (r: (Option<usize>, Ghost<int>))
        requires
            self.wf(),
        ensures
            versions::stands_at(self.entries(), KeyView { user: key@, seq }, r.1@),
            r.0 == self.link_to(r.1@),
    {
        let ghost target = KeyView { user: key@, seq };
        let mut pred: Option<usize> = None;
        let ghost mut p: int = -1;
        let mut curr: Option<usize> = None;
        let mut level: usize = self.max_height;
        while level > 0
            invariant
                self.wf(),
                target == (KeyView { user: key@, seq }),
                level <= self.max_height,
                self.at(pred, p),
                level == self.max_height ==> p == -1,
                level < self.max_height ==> self.pred_at(target, level as int, p) && curr
                    == self.link_to(next_at(self.heights(), p, level as int)),
            decreases level,
        {
            level -= 1;
            let (a, b, Ghost(c)) = self.walk(key, seq, level, pred, Ghost(p));
            pred = a;
            curr = b;
            proof {
                p = c;
            }
        }
        proof {
            self.lemma_bottom(target, p);
        }
        (curr, Ghost(p + 1))
    }

    /// For every level the last node before the key and its successor. Returns
    /// whether the key is in the list.
    fn find(
        &self,
        key: &str,
        seq: u64,
        preds: &mut Vec<Option<usize>>,
        succs: &mut Vec<Option<usize>>,
    ) -> (r: (bool, Ghost<Seq<int>>))
        requires
            self.wf(),
            old(preds)@.len() == MAX_HEIGHT,
            old(succs)@.len() == MAX_HEIGHT,
        ensures
            final(preds)@.len() == MAX_HEIGHT,
            final(succs)@.len() == MAX_HEIGHT,
            r.1@.len() == MAX_HEIGHT,
            forall|l: int|
                0 <= l < self.max_height ==> {
                    &&& self.at(final(preds)@[l], #[trigger] r.1@[l])
                    &&& self.pred_at(KeyView { user: key@, seq }, l, r.1@[l])
                    &&& final(succs)@[l] == self.link_to(next_at(self.heights(), r.1@[l], l))
                },
            versions::stands_at(self.entries(), KeyView { user: key@, seq }, r.1@[0] + 1),
            r.0 == versions::has_key(self.entries(), KeyView { user: key@, seq }),
    {
        let ghost target = KeyView { user: key@, seq };
        let mut pred: Option<usize> = None;
        let ghost mut p: int = -1;
        let ghost mut ps: Seq<int> = Seq::new(MAX_HEIGHT as nat, |i: int| 0);
        let mut level: usize = self.max_height;
        while level > 0
            invariant
                self.wf(),
                target == (KeyView { user: key@, seq }),
                level <= self.max_height,
                preds@.len() == MAX_HEIGHT,
                succs@.len() == MAX_HEIGHT,
                ps.len() == MAX_HEIGHT,
                self.at(pred, p),
                level == self.max_height ==> p == -1,
                level < self.max_height ==> p == ps[level as int],
                forall|l: int|
                    level <= l < self.max_height ==> {
                        &&& self.at(preds@[l], #[trigger] ps[l])
                        &&& self.pred_at(target, l, ps[l])
                        &&& succs@[l] == self.link_to(next_at(self.heights(), ps[l], l))
                    },
            decreases level,
        {
            level -= 1;
            let (a, b, Ghost(c)) = self.walk(key, seq, level, pred, Ghost(p));
            pred = a;
            preds.set(level, a);
            succs.set(level, b);
            proof {
                p = c;
                ps = ps.update(level as int, c);
            }
        }
        proof {
            self.lemma_bottom(target, p);
        }
        assert(ps[0] == p);
        let found = match succs[0] {
            Some(i) => {
                assert(self.nodes@[i as int].key@ == self.entries()[p + 1].0);
                self.nodes[i].key.is(key, seq)
            },
            None => false,
        };
        proof {
            self.lemma_found(target, p + 1);
            if found {
                assert(self.entries()[p + 1].0 == target);
            }
        }
        (found, Ghost(ps))
    }

    /// Different positions hold different nodes.
    proof fn lemma_order_injective(&self, p: int, q: int)
        requires
            self.wf(),
            0 <= p < self.order@.len(),
            0 <= q < self.order@.len(),
            self.order@[p] == self.order@[q],
        ensures
            p == q,
    {
        broadcast use key::lemma_key_irreflexive;

        let es = self.entries();
        if p < q {
            assert(es[p].0.lt(es[q].0));
        }
        if q < p {
            assert(es[q].0.lt(es[p].0));
        }
    }

    /// The links of `b` are those of `a`, but that the links of the predecessors
    /// below `levels` lead to the node `n`.
    spec fn relinked(a: SkipList, b: SkipList, ps: Seq<int>, levels: int, n: usize) -> bool {
        &&& b.order == a.order
        &&& b.head@.len() == a.head@.len()
        &&& b.nodes@.len() == a.nodes@.len() + 1
        &&& forall|i: int|
            0 <= i < a.nodes@.len() ==> {
                &&& (#[trigger] b.nodes@[i]).key == a.nodes@[i].key
                &&& b.nodes@[i].value == a.nodes@[i].value
                &&& b.nodes@[i].tower@.len() == a.nodes@[i].tower@.len()
            }
        &&& forall|p: int, l: int|
            -1 <= p < a.order@.len() && 0 <= l < a.links(p).len() ==> #[trigger] b.links(p)[l] == (
            if l < levels && p == ps[l] {
                Some(n)
            } else {
                a.links(p)[l]
            })
    }

    /// The position of a key lies between its predecessor and the successor.
    proof fn lemma_pred_around(&self, target: KeyView, level: int, p: int, t: int)
        requires
            self.wf(),
            self.pred_at(target, level, p),
            versions::stands_at(self.entries(), target, t),
        ensures
            p < t <= next_at(self.heights(), p, level),
    {
        broadcast use {key::lemma_key_transitive, key::lemma_key_asymmetric};

        let es = self.entries();
        lemma_next_bounds(self.heights(), p, level);
        let q = next_at(self.heights(), p, level);
        if q < t {
            assert(es[q].0.lt(target));
        }
        if p >= t {
            assert(es[p].0.lt(target));
            if p > t {
                assert(es[t].0.lt(es[p].0));
            }
            assert(false);
        }
    }

    /// Linking a node in between its predecessors and successors keeps the links
    /// and the order of the list.
    proof fn lemma_inserted(a: SkipList, mid: SkipList, b: SkipList, ps: Seq<int>, n: usize)
        requires
            a.wf(),
            n == a.nodes@.len(),
            a.nodes@.len() + 1 == mid.nodes@.len(),
            1 <= mid.nodes@[n as int].tower@.len() <= a.max_height,
            ps.len() == MAX_HEIGHT,
            SkipList::relinked(a, mid, ps, mid.nodes@[n as int].tower@.len() as int, n),
            forall|l: int|
                0 <= l < a.max_height ==> a.pred_at(mid.nodes@[n as int].key@, l, #[trigger] ps[l]),
            forall|l: int|
                0 <= l < mid.nodes@[n as int].tower@.len()
                    ==> #[trigger] mid.nodes@[n as int].tower@[l] == a.link_to(
                    next_at(a.heights(), ps[l], l),
                ),
            versions::stands_at(a.entries(), mid.nodes@[n as int].key@, ps[0] + 1),
            !versions::has_key(a.entries(), mid.nodes@[n as int].key@),
            b.head == mid.head,
            b.nodes == mid.nodes,
            b.max_height == a.max_height,
            b.order@ == a.order@.insert(ps[0] + 1, n),
        ensures
            b.shape(),
            b.linked(),
            versions::sorted(b.entries()),
            b.entries() == a.entries().insert(
                ps[0] + 1,
                (mid.nodes@[n as int].key@, mid.nodes@[n as int].value@),
            ),
    {
        let t = ps[0] + 1;
        let e = (mid.nodes@[n as int].key@, mid.nodes@[n as int].value@);
        let h = mid.nodes@[n as int].tower@.len();
        let (ha, hb) = (a.heights(), b.heights());
        assert forall|p: int| 0 <= p < b.order@.len() implies #[trigger] b.order@[p]
            < b.nodes@.len() by {
            if p < t {
                assert(b.order@[p] == a.order@[p]);
            } else if p > t {
                assert(b.order@[p] == a.order@[p - 1]);
            }
        }
        assert(b.entries() =~= a.entries().insert(t, e));
        assert(hb =~= ha.insert(t, h));
        versions::lemma_insert_sorted(a.entries(), t, e);
        assert forall|p: int, l: int|
            -1 <= p < b.order@.len() && 0 <= l < b.links(
                p,
            ).len() implies #[trigger] b.links(p)[l] == b.link_to(next_at(hb, p, l)) by {
            lemma_next_insert(ha, t, h, p, l);
            if p == t {
                let q = next_at(ha, ps[l], l);
                assert(a.pred_at(e.0, l, ps[l]));
                a.lemma_pred_around(e.0, l, ps[l], t);
                lemma_next_bounds(ha, ps[l], l);
                lemma_next_is(ha, t - 1, l, q);
                assert(b.links(p)[l] == a.link_to(q));
                assert(b.link_to(q + 1) == a.link_to(q));
            } else {
                let r = if p < t { p } else { p - 1 };
                assert(b.links(p) == mid.links(r));
                assert(mid.links(r)[l] == if l < h && r == ps[l] {
                    Some(n)
                } else {
                    a.links(r)[l]
                });
                let q = next_at(ha, r, l);
                assert(a.links(r)[l] == a.link_to(q));
                lemma_next_bounds(ha, r, l);
                if l < h {
                    assert(a.pred_at(e.0, l, ps[l]));
                    a.lemma_pred_around(e.0, l, ps[l], t);
                    lemma_next_bounds(ha, ps[l], l);
                    if r < t && q >= t {
                        if r < ps[l] {
                            assert(ha[ps[l]] <= l);
                        }
                        if ps[l] < r {
                            assert(ha[r] <= l);
                        }
                        assert(r == ps[l]);
                    }
                }
                if q < t {
                    assert(b.link_to(q) == a.link_to(q));
                } else {
                    assert(b.link_to(q + 1) == a.link_to(q));
                }
            }
        }
    }

    /// Adds a version. Returns `false`, and changes no version, when the key is
    /// already in the list.
    pub fn insert(&mut self, key: Key, value: Value) -> (r: bool)
        requires
            old(self).wf(),
        ensures
            final(self).wf(),
            r == !old(self)@.contains_key(key@),
            r ==> final(self)@ == old(self)@.insert(key@, value@),
            r ==> final(self).entries().len() == old(self).entries().len() + 1,
            r ==> exists|height: nat|
                1 <= height <= MAX_HEIGHT && final(self).usage() == old(self).usage().wrapping_add(
                    #[trigger] node::node_size(key@, value@, height),
                ) && final(self).bytes() == old(self).bytes() + node::node_bytes(
                    key@,
                    value@,
                    height,
                ),
            !r ==> final(self).entries() == old(self).entries() && final(self).usage() == old(
                self,
            ).usage() && final(self).bytes() == old(self).bytes(),
    {
        let height: usize = self.random_height();
        if height > self.max_height {
            self.max_height = height;
        }
        assert(self.entries() =~= old(self).entries());
        assert(self.heights() =~= old(self).heights());
        assert(self.linked()) by {
            assert forall|p: int, l: int|
                -1 <= p < self.order@.len() && 0 <= l < self.links(
                    p,
                ).len() implies #[trigger] self.links(p)[l] == self.link_to(
                next_at(self.heights(), p, l),
            ) by {
                assert(old(self).links(p)[l] == old(self).link_to(
                    next_at(old(self).heights(), p, l),
                ));
            }
        }
        let ghost a = *self;
        let ghost target = key@;
        let mut preds: Vec<Option<usize>> = Vec::new();
        let mut succs: Vec<Option<usize>> = Vec::new();
        while preds.len() < MAX_HEIGHT
            invariant
                preds@.len() == succs@.len() <= MAX_HEIGHT,
            decreases MAX_HEIGHT - preds@.len(),
        {
            preds.push(None);
            succs.push(None);
        }
        let (found, Ghost(ps)) = self.find(key.0.as_str(), key.1, &mut preds, &mut succs);
        proof {
            versions::lemma_map_of_keys(self.entries());
        }
        if found {
            return false;
        }
        let mut tower: Vec<Option<usize>> = Vec::new();
        let mut level: usize = 0;
        while level < height
            invariant
                level <= height <= MAX_HEIGHT,
                succs@.len() == MAX_HEIGHT,
                tower@ == succs@.take(level as int),
            decreases height - level,
        {
            tower.push(succs[level]);
            level += 1;
            assert(tower@ =~= succs@.take(level as int));
        }
        let n: usize = self.nodes.len();
        let node = Node { key, value, tower };
        let ghost fresh = node;
        let size: usize = node.heap_size();
        self.nodes.push(node);
        self.mem_usage = self.mem_usage.wrapping_add(size);
        assert(SkipList::relinked(a, *self, ps, 0, n)) by {
            assert forall|p: int, l: int|
                -1 <= p < a.order@.len() && 0 <= l < a.links(p).len() implies #[trigger] self.links(
                p,
            )[l] == a.links(p)[l] by {
                assert(p >= 0 ==> a.order@[p] < n);
            }
        }
        level = 0;
        while level < height
            invariant
                a.wf(),
                n == a.nodes@.len(),
                level <= height <= a.max_height,
                a.max_height <= MAX_HEIGHT,
                preds@.len() == MAX_HEIGHT,
                ps.len() == MAX_HEIGHT,
                forall|l: int|
                    0 <= l < a.max_height ==> a.at(preds@[l], #[trigger] ps[l]) && a.pred_at(
                        target,
                        l,
                        ps[l],
                    ),
                SkipList::relinked(a, *self, ps, level as int, n),
                self.nodes@[n as int] == fresh,
                self.max_height == a.max_height,
                self.mem_usage == a.mem_usage.wrapping_add(size),
                self.order == a.order,
                self.bytes == a.bytes,
            decreases height - level,
        {
            let ghost before = *self;
            let ghost pl = ps[level as int];
            assert(a.at(preds@[level as int], pl));
            assert(before.links(pl).len() == a.links(pl).len()) by {
                if pl >= 0 {
                    assert(a.order@[pl] < n);
                }
            }
            match preds[level] {
                None => {
                    self.head.set(level, Some(n));
                },
                Some(i) => {
                    assert(i < n);
                    self.nodes[i].tower.set(level, Some(n));
                },
            }
            assert forall|p: int, l: int|
                -1 <= p < a.order@.len() && 0 <= l < a.links(p).len() implies #[trigger] self.links(
                p,
            )[l] == (if l < level + 1 && p == ps[l] {
                Some(n)
            } else {
                a.links(p)[l]
            }) by {
                assert(before.links(p)[l] == (if l < level && p == ps[l] {
                    Some(n)
                } else {
                    a.links(p)[l]
                }));
                if p >= 0 && pl >= 0 && a.order@[p] == a.order@[pl] {
                    a.lemma_order_injective(p, pl);
                }
                if p >= 0 {
                    assert(a.order@[p] < n);
                }
            }
            level += 1;
        }
        let ghost mid = *self;
        let ghost t = ps[0] + 1;
        proof {
            self.order@ = self.order@.insert(t, n);
            self.bytes@ = self.bytes@ + node::node_bytes(target, fresh.value@, height as nat);
            assert forall|l: int| 0 <= l < fresh.tower@.len() implies #[trigger] fresh.tower@[l]
                == a.link_to(next_at(a.heights(), ps[l], l)) by {
                assert(a.at(preds@[l], ps[l]));
            }
            SkipList::lemma_inserted(a, mid, *self, ps, n);
            versions::lemma_insert_sorted(a.entries(), t, (fresh.key@, fresh.value@));
            lemma_texts_insert(a.entries(), t, (fresh.key@, fresh.value@));
            if self.bytes@ <= usize::MAX {
                node::lemma_node_size(target, fresh.value@, height as nat);
            }
            assert(self.usage() == old(self).usage().wrapping_add(
                node::node_size(target, fresh.value@, height as nat),
            ));
        }
        true
    }

    /// The newest version of `key` with a sequence number of at most `snapshot`.
    pub fn get_entry_at(&self, key: &str, snapshot: u64) -> (r: Option<(&Key, &Value)>)
        requires
            self.wf(),
        ensures
            r matches Some((k, v)) ==> {
                &&& k@.user == key@
                &&& versions::newest(self@, key@, snapshot, k@.seq)
                &&& v@ == self@[k@]
            },
            r is None ==> versions::lookup(self@, key@, snapshot) is Absent,
    {
        let (link, Ghost(t)) = self.seek(key, snapshot);
        proof {
            versions::lemma_sorted_ascending(self.entries());
            versions::lemma_lookup_at(self.entries(), key@, snapshot, t);
        }
        match link {
            Some(i) => {
                let node = &self.nodes[i];
                assert((node.key@, node.value@) == self.entries()[t]);
                if text::same(node.key.0.as_str(), key) {
                    proof {
                        versions::lemma_map_of_sorted(self.entries());
                        versions::lemma_newest_at(self.entries(), key@, snapshot, t);
                    }
                    Some((&node.key, &node.value))
                } else {
                    None
                }
            },
            None => None,
        }
    }

    /// The value of the newest version of `key` with a sequence number of at most
    /// `snapshot`.
    pub fn get_at(&self, key: &str, snapshot: u64) -> (r: Option<&Value>)
        requires
            self.wf(),
        ensures
            r matches Some(v) ==> versions::lookup(self@, key@, snapshot) == LookupView::of(v@),
            r is None ==> versions::lookup(self@, key@, snapshot) is Absent,
    {
        match self.get_entry_at(key, snapshot) {
            Some((k, v)) => {
                proof {
                    versions::lemma_lookup_newest(self@, key@, snapshot, k@.seq);
                    assert(k@ == KeyView { user: key@, seq: k@.seq });
                }
                Some(v)
            },
            None => None,
        }
    }

    /// The value of the newest version of `key`.
    pub fn get(&self, key: &str) -> (r: Option<&Value>)
        requires
            self.wf(),
        ensures
            r matches Some(v) ==> versions::lookup(self@, key@, u64::MAX) == LookupView::of(v@),
            r is None ==> versions::lookup(self@, key@, u64::MAX) is Absent,
    {
        self.get_at(key, u64::MAX)
    }

    /// The versions in key order.
    pub fn iter(&self) -> (r: Iter<'_>)
        requires
            self.wf(),
        ensures
            r.wf(),
            r.rest() == self.entries(),
    {
        let curr: Option<usize> = self.slot(None, 0, Ghost(-1));
        proof {
            if self.order@.len() > 0 {
                assert(self.heights()[0] >= 1);
            }
        }
        let r = Iter { list: self, curr, pos: Ghost(0) };
        assert(r.rest() =~= self.entries());
        r
    }

    /// The versions from `(key, seq)` on, in key order.
    pub fn iter_from(&self, key: &str, seq: u64) -> (r: Iter<'_>)
        requires
            self.wf(),
        ensures
            r.wf(),
            exists|t: int|
                versions::stands_at(self.entries(), KeyView { user: key@, seq }, t) && r.rest()
                    == #[trigger] self.entries().skip(t),
    {
        let (curr, pos) = self.seek(key, seq);
        let r = Iter { list: self, curr, pos };
        assert(r.rest() == self.entries().skip(pos@));
        r
    }

    /// A key is in the list exactly when it stands at its own position.
    proof fn lemma_found(&self, target: KeyView, t: int)
        requires
            self.wf(),
            versions::stands_at(self.entries(), target, t),
        ensures
            versions::has_key(self.entries(), target) <==> t < self.entries().len()
                && self.entries()[t].0 == target,
    {
        broadcast use {
            key::lemma_key_irreflexive,
            key::lemma_key_transitive,
            key::lemma_key_asymmetric,
        };

        let es = self.entries();
        if versions::has_key(es, target) {
            let i = choose|i: int| 0 <= i < es.len() && (#[trigger] es[i]).0 == target;
            if i < t {
                assert(es[i].0.lt(target));
            } else if i > t {
                assert(es[t].0.lt(es[i].0));
            }
            assert(i == t);
        }
    }
}

/// Walks the versions of a list in key order.
pub struct Iter<'a> {
    list: &'a SkipList,
    curr: Option<usize>,
    pos: Ghost<int>,
}

impl<'a> Iter<'a> {
    /// The versions that are still to come.
    pub closed spec fn rest(&self) -> Seq<Entry> {
        self.list.entries().skip(self.pos@)
    }

    /// The walk stands at a place of a list in good order.
    pub closed spec fn wf(&self) -> bool {
        &&& self.list.wf()
        &&& 0 <= self.pos@ <= self.list.entries().len()
        &&& self.curr == self.list.link_to(self.pos@)
    }

    /// What is still to come is sorted by key.
    pub proof fn lemma_sorted(&self)
        requires
            self.wf(),
        ensures
            versions::sorted(self.rest()),
    {
        let es = self.list.entries();
        assert forall|i: int, j: int| 0 <= i < j < self.rest().len() implies (
        #[trigger] self.rest()[i]).0.lt((#[trigger] self.rest()[j]).0) by {
            assert(self.rest()[i] == es[i + self.pos@]);
            assert(self.rest()[j] == es[j + self.pos@]);
        }
    }

    /// The next version.
    pub fn next(&mut self) -> (r: Option<(&'a Key, &'a Value)>)
        requires
            old(self).wf(),
        ensures
            final(self).wf(),
            r is None <==> old(self).rest().len() == 0,
            r is None ==> final(self).rest() == old(self).rest(),
            r matches Some((k, v)) ==> (k@, v@) == old(self).rest()[0] && final(self).rest()
                == old(self).rest().drop_first(),
    {
        match self.curr {
            None => None,
            Some(i) => {
                let list: &'a SkipList = self.list;
                let ghost p = self.pos@;
                proof {
                    if p + 1 < list.order@.len() {
                        assert(list.heights()[p + 1] >= 1);
                    }
                }
                self.curr = list.slot(Some(i), 0, Ghost(p));
                proof {
                    self.pos@ = p + 1;
                }
                assert(self.rest() =~= old(self).rest().drop_first());
                let node = &list.nodes[i];
                Some((&node.key, &node.value))
            },
        }
    }
}

} // verus!
