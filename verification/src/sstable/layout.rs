//! How the entries of a table lie in its file.

use vstd::prelude::*;
use vstd::utf8::*;

use crate::common::key;
use crate::common::value::ValueView;
use crate::common::versions;
use crate::common::versions::Entry;
use crate::sstable::bloom;
use crate::sstable::cursor;
use crate::sstable::encode;
use crate::sstable::index;
use crate::sstable::index::IndexView;
use crate::sstable::writer;
use crate::sstable::writer::{Refusal, WriterView, BLOCK_SIZE};

verus! {

/// What a file gives back for an entry: an empty text is written like a deletion
/// mark.
pub open spec fn stored_entry(e: Entry) -> Entry {
    (e.0, e.1.stored())
}

/// What a file gives back for entries.
pub open spec fn stored(es: Seq<Entry>) -> Seq<Entry> {
    Seq::new(es.len(), |i: int| stored_entry(es[i]))
}

/// The bytes of entries, one after the other.
pub open spec fn payload(es: Seq<Entry>) -> Seq<u8>
    decreases es.len(),
{
    if es.len() == 0 {
        Seq::empty()
    } else {
        payload(es.drop_last()) + encode::entry_bytes(es.last())
    }
}

/// How entries fall into blocks: the blocks that are closed and the entries of
/// the open one. A block is closed by the entry that makes it longer than 4096
/// bytes.
pub open spec fn cut(es: Seq<Entry>) -> (Seq<Seq<Entry>>, Seq<Entry>)
    decreases es.len(),
{
    if es.len() == 0 {
        (Seq::empty(), Seq::empty())
    } else {
        let (closed, open) = cut(es.drop_last());
        let next = open.push(es.last());
        if 6 + payload(next).len() > BLOCK_SIZE {
            (closed.push(next), Seq::empty())
        } else {
            (closed, next)
        }
    }
}

/// The blocks of a complete table.
pub open spec fn blocks(es: Seq<Entry>) -> Seq<Seq<Entry>> {
    let (closed, open) = cut(es);
    if open.len() == 0 {
        closed
    } else {
        closed.push(open)
    }
}

/// The bytes of blocks, one after the other.
pub open spec fn data(bs: Seq<Seq<Entry>>) -> Seq<u8>
    decreases bs.len(),
{
    if bs.len() == 0 {
        Seq::empty()
    } else {
        data(bs.drop_last()) + cursor::block_bytes(payload(bs.last()))
    }
}

/// The index of blocks.
pub open spec fn index_of(bs: Seq<Seq<Entry>>) -> Seq<IndexView>
    decreases bs.len(),
{
    if bs.len() == 0 {
        Seq::empty()
    } else {
        index_of(bs.drop_last()).push(
            IndexView {
                key: bs.last().last().0,
                off: data(bs.drop_last()).len() as u64,
                len: (6 + payload(bs.last()).len()) as u16,
            },
        )
    }
}

/// Whether a block can be written: it has entries, and they fit.
pub open spec fn block_ok(b: Seq<Entry>) -> bool {
    &&& b.len() > 0
    &&& 6 + payload(b).len() <= u16::MAX
    &&& forall|i: int| 0 <= i < b.len() ==> encode::entry_fits(#[trigger] b[i])
}

/// Whether all blocks can be written.
pub open spec fn blocks_ok(bs: Seq<Seq<Entry>>) -> bool {
    forall|i: int| 0 <= i < bs.len() ==> block_ok(#[trigger] bs[i])
}

/// The writer that has taken `es`.
pub open spec fn written(es: Seq<Entry>) -> WriterView
    decreases es.len(),
{
    if es.len() == 0 {
        WriterView::empty()
    } else {
        written(es.drop_last()).step(es.last()).0
    }
}

/// Whether a writer takes all of `es`.
pub open spec fn accepted(es: Seq<Entry>) -> bool
    decreases es.len(),
{
    es.len() == 0 || (accepted(es.drop_last()) && written(es.drop_last()).step(es.last()).1 is None)
}

/// Why a writer does not take all of `es`, if it does not: what it says of the
/// first entry that it refuses.
pub open spec fn first_refusal(es: Seq<Entry>) -> Option<Refusal>
    decreases es.len(),
{
    if es.len() == 0 {
        None
    } else {
        match first_refusal(es.drop_last()) {
            Some(r) => Some(r),
            None => written(es.drop_last()).step(es.last()).1,
        }
    }
}

/// A writer takes all entries when it refuses none.
pub proof fn lemma_first_refusal(es: Seq<Entry>)
    ensures
        accepted(es) <==> first_refusal(es) is None,
    decreases es.len(),
{
    if es.len() > 0 {
        lemma_first_refusal(es.drop_last());
    }
}

/// What is refused among the first entries is refused among all.
pub proof fn lemma_refused_early(es: Seq<Entry>, n: int)
    requires
        0 <= n <= es.len(),
        first_refusal(es.take(n)) is Some,
    ensures
        first_refusal(es) == first_refusal(es.take(n)),
    decreases es.len() - n,
{
    if n < es.len() {
        assert(es.take(n + 1).drop_last() =~= es.take(n));
        lemma_refused_early(es, n + 1);
    } else {
        assert(es.take(n) =~= es);
    }
}

/// The lowest sequence number of entries.
pub open spec fn smallest(es: Seq<Entry>) -> u64
    decreases es.len(),
{
    if es.len() == 0 {
        0
    } else if es.len() == 1 || es.last().0.seq < smallest(es.drop_last()) {
        es.last().0.seq
    } else {
        smallest(es.drop_last())
    }
}

/// The highest sequence number of entries.
pub open spec fn largest(es: Seq<Entry>) -> u64
    decreases es.len(),
{
    if es.len() == 0 {
        0
    } else if es.len() == 1 || es.last().0.seq > largest(es.drop_last()) {
        es.last().0.seq
    } else {
        largest(es.drop_last())
    }
}

/// No entry is above the highest sequence number, and one has it.
pub proof fn lemma_largest(es: Seq<Entry>)
    ensures
        forall|i: int| 0 <= i < es.len() ==> (#[trigger] es[i]).0.seq <= largest(es),
        es.len() > 0 ==> exists|i: int|
            0 <= i < es.len() && (#[trigger] es[i]).0.seq == largest(es),
    decreases es.len(),
{
    if es.len() > 0 {
        let prev = es.drop_last();
        lemma_largest(prev);
        assert forall|i: int| 0 <= i < es.len() implies (#[trigger] es[i]).0.seq <= largest(es) by {
            if i < es.len() - 1 {
                assert(prev[i] == es[i]);
            }
        }
        if es.last().0.seq == largest(es) {
            assert(es[es.len() - 1].0.seq == largest(es));
        } else {
            let i = choose|i: int| 0 <= i < prev.len() && (#[trigger] prev[i]).0.seq == largest(prev);
            assert(es[i].0.seq == largest(es));
        }
    }
}

/// No entry is below the lowest sequence number, and one has it.
pub proof fn lemma_smallest(es: Seq<Entry>)
    ensures
        forall|i: int| 0 <= i < es.len() ==> smallest(es) <= (#[trigger] es[i]).0.seq,
        es.len() > 0 ==> exists|i: int|
            0 <= i < es.len() && (#[trigger] es[i]).0.seq == smallest(es),
    decreases es.len(),
{
    if es.len() > 0 {
        let prev = es.drop_last();
        lemma_smallest(prev);
        assert forall|i: int| 0 <= i < es.len() implies smallest(es) <= (#[trigger] es[i]).0.seq by {
            if i < es.len() - 1 {
                assert(prev[i] == es[i]);
            }
        }
        if es.last().0.seq == smallest(es) {
            assert(es[es.len() - 1].0.seq == smallest(es));
        } else {
            let i = choose|i: int|
                0 <= i < prev.len() && (#[trigger] prev[i]).0.seq == smallest(prev);
            assert(es[i].0.seq == smallest(es));
        }
    }
}

/// The entries of the first blocks are the first entries.
pub proof fn lemma_first_blocks(bs: Seq<Seq<Entry>>, n: int)
    requires
        0 <= n <= bs.len(),
    ensures
        bs.take(n).flatten().len() <= bs.flatten().len(),
        bs.take(n).flatten() == bs.flatten().take(bs.take(n).flatten().len() as int),
        n < bs.len() ==> bs.take(n + 1).flatten() == bs.take(n).flatten() + bs[n],
    decreases bs.len() - n,
{
    if n < bs.len() {
        assert(bs.take(n).push(bs[n]) =~= bs.take(n + 1));
        bs.take(n).lemma_flatten_push(bs[n]);
        lemma_first_blocks(bs, n + 1);
        let (a, b) = (bs.take(n).flatten(), bs.take(n + 1).flatten());
        assert(a =~= b.take(a.len() as int));
        assert(a =~= bs.flatten().take(a.len() as int));
    } else {
        assert(bs.take(n) =~= bs);
        assert(bs.flatten().take(bs.flatten().len() as int) =~= bs.flatten());
    }
}

/// The bytes of two runs of entries.
pub proof fn lemma_payload_join(a: Seq<Entry>, b: Seq<Entry>)
    ensures
        payload(a + b) == payload(a) + payload(b),
    decreases b.len(),
{
    if b.len() == 0 {
        assert(a + b =~= a);
        assert(payload(a + b) =~= payload(a) + payload(b));
    } else {
        assert((a + b).drop_last() =~= a + b.drop_last());
        lemma_payload_join(a, b.drop_last());
        assert(payload(a + b) =~= payload(a) + payload(b));
    }
}

/// The bytes of one entry.
pub proof fn lemma_payload_one(e: Entry)
    ensures
        payload(seq![e]) == encode::entry_bytes(e),
{
    let s = seq![e];
    assert(s.drop_last() =~= Seq::<Entry>::empty());
    assert(payload(s.drop_last()) =~= Seq::<u8>::empty());
    assert(payload(s) =~= encode::entry_bytes(e));
}

/// The bytes of two runs of blocks.
pub proof fn lemma_data_join(a: Seq<Seq<Entry>>, b: Seq<Seq<Entry>>)
    ensures
        data(a + b) == data(a) + data(b),
    decreases b.len(),
{
    if b.len() == 0 {
        assert(a + b =~= a);
        assert(data(a + b) =~= data(a) + data(b));
    } else {
        assert((a + b).drop_last() =~= a + b.drop_last());
        lemma_data_join(a, b.drop_last());
        assert(data(a + b) =~= data(a) + data(b));
    }
}

/// Where a block lies among the bytes of all.
pub proof fn lemma_block_at(bs: Seq<Seq<Entry>>, i: int)
    requires
        0 <= i < bs.len(),
    ensures
        data(bs.take(i)).len() + cursor::block_bytes(payload(bs[i])).len() <= data(bs).len(),
        data(bs).subrange(
            data(bs.take(i)).len() as int,
            (data(bs.take(i)).len() + cursor::block_bytes(payload(bs[i])).len()) as int,
        ) == cursor::block_bytes(payload(bs[i])),
        data(bs.take(i + 1)).len() == data(bs.take(i)).len() + cursor::block_bytes(
            payload(bs[i]),
        ).len(),
{
    let (a, b) = (bs.take(i + 1), bs.skip(i + 1));
    assert(a + b =~= bs);
    lemma_data_join(a, b);
    assert(a.drop_last() =~= bs.take(i));
    assert(data(bs).subrange(
        data(bs.take(i)).len() as int,
        (data(bs.take(i)).len() + cursor::block_bytes(payload(bs[i])).len()) as int,
    ) =~= cursor::block_bytes(payload(bs[i])));
}

/// Where an entry lies among the bytes of its block.
pub proof fn lemma_entry_in_payload(b: Seq<Entry>, j: int)
    requires
        0 <= j < b.len(),
    ensures
        payload(b.take(j)).len() + encode::entry_bytes(b[j]).len() <= payload(b).len(),
        payload(b).subrange(
            payload(b.take(j)).len() as int,
            (payload(b.take(j)).len() + encode::entry_bytes(b[j]).len()) as int,
        ) == encode::entry_bytes(b[j]),
        payload(b.take(j + 1)).len() == payload(b.take(j)).len() + encode::entry_bytes(b[j]).len(),
        payload(b.skip(j)).len() == payload(b).len() - payload(b.take(j)).len(),
        payload(b.skip(j + 1)).len() == payload(b).len() - payload(b.take(j + 1)).len(),
{
    let e = b[j];
    let (p, q) = (b.take(j), b.skip(j + 1));
    assert(b.take(j + 1) =~= p.push(e));
    assert(p.push(e).drop_last() =~= p);
    assert(b =~= b.take(j + 1) + q);
    lemma_payload_join(b.take(j + 1), q);
    assert(b =~= p + b.skip(j));
    lemma_payload_join(p, b.skip(j));
    assert(payload(b).subrange(
        payload(p).len() as int,
        (payload(p).len() + encode::entry_bytes(e).len()) as int,
    ) =~= encode::entry_bytes(e));
}

/// A part of a part is a part of the whole.
proof fn lemma_nested(whole: Seq<u8>, base: int, part: Seq<u8>, k: int, n: int, t: Seq<u8>)
    requires
        0 <= base,
        base + 6 + part.len() <= whole.len(),
        whole.subrange(base, base + 6 + part.len()).skip(6) == part,
        0 <= k <= k + n <= part.len(),
        part.subrange(k, k + n) == t,
    ensures
        whole.subrange(base + 6 + k, base + 6 + k + n) == t,
{
    let s = whole.subrange(base, base + 6 + part.len());
    assert forall|x: int| 0 <= x < n implies whole.subrange(base + 6 + k, base + 6 + k + n)[x]
        == t[x] by {
        assert(s.skip(6)[k + x] == s[6 + k + x]);
        assert(part.subrange(k, k + n)[x] == part[k + x]);
    }
    assert(whole.subrange(base + 6 + k, base + 6 + k + n) =~= t);
}

/// Where an entry lies among the bytes of all blocks.
pub proof fn lemma_entry_in_data(bs: Seq<Seq<Entry>>, i: int, j: int)
    requires
        blocks_ok(bs),
        0 <= i < bs.len(),
        0 <= j < bs[i].len(),
    ensures
        ({
            let at = data(bs.take(i)).len() + 6 + payload(bs[i].take(j)).len();
            let n = encode::entry_bytes(bs[i][j]).len();
            &&& at + n <= data(bs).len()
            &&& data(bs).subrange(at as int, (at + n) as int) == encode::entry_bytes(bs[i][j])
        }),
{
    let b = bs[i];
    assert(block_ok(b));
    lemma_block_at(bs, i);
    lemma_entry_in_payload(b, j);
    cursor::law_block_checks(payload(b));
    let blk = cursor::block_bytes(payload(b));
    let base = data(bs.take(i)).len() as int;
    let k = payload(b.take(j)).len() as int;
    let n = encode::entry_bytes(b[j]).len() as int;
    lemma_nested(data(bs), base, payload(b), k, n, encode::entry_bytes(b[j]));
}

/// What the index says of a block.
pub proof fn lemma_index_of(bs: Seq<Seq<Entry>>, i: int)
    requires
        0 <= i < bs.len(),
    ensures
        index_of(bs).len() == bs.len(),
        index_of(bs)[i] == (IndexView {
            key: bs[i].last().0,
            off: data(bs.take(i)).len() as u64,
            len: (6 + payload(bs[i]).len()) as u16,
        }),
    decreases bs.len(),
{
    if bs.len() > 1 {
        lemma_index_of(bs.drop_last(), if i < bs.len() - 1 { i } else { 0 });
    } else {
        assert(bs.drop_last().len() == 0);
        assert(index_of(bs.drop_last()).len() == 0);
    }
    if i < bs.len() - 1 {
        assert(bs.drop_last().take(i) =~= bs.take(i));
    } else {
        assert(bs.drop_last() =~= bs.take(i));
    }
}

/// A writer that has taken entries holds them in blocks, and its counts and
/// hashes are those of the entries.
pub proof fn lemma_written(es: Seq<Entry>)
    requires
        accepted(es),
        es.len() <= u64::MAX,
    ensures
        written(es).file == data(cut(es).0),
        written(es).block == writer::empty_block() + payload(cut(es).1),
        written(es).index == index_of(cut(es).0),
        written(es).entries == es.len(),
        written(es).first == (if es.len() == 0 {
            None
        } else {
            Some(es[0].0)
        }),
        written(es).last == (if es.len() == 0 {
            None
        } else {
            Some(es.last().0)
        }),
        written(es).smallest == smallest(es),
        written(es).largest == largest(es),
        cut(es).0.flatten() + cut(es).1 == es,
        blocks_ok(cut(es).0),
        6 + payload(cut(es).1).len() <= BLOCK_SIZE,
        forall|i: int| 0 <= i < es.len() ==> encode::entry_fits(#[trigger] es[i]),
        versions::ascending(es),
        forall|i: int|
            0 <= i < es.len() ==> written(es).hashes.contains(
                bloom::key_hash((#[trigger] es[i]).0.user),
            ),
    decreases es.len(),
{
    encode::lemma_be(0, 4);
    encode::lemma_be(0, 2);
    if es.len() == 0 {
        assert(writer::empty_block() + payload(cut(es).1) =~= writer::empty_block());
        assert(cut(es).0.flatten() + cut(es).1 =~= es);
    } else {
        let prev = es.drop_last();
        let e = es.last();
        lemma_written(prev);
        let v = written(prev);
        let (c, o) = cut(prev);
        let next = o.push(e);
        assert(next.drop_last() =~= o);
        let taken = v.hashed(e.0).filled(encode::entry_bytes(e)).counted(e.0);
        assert(taken.block =~= writer::empty_block() + payload(next));
        assert(taken.block.skip(6) =~= payload(next));
        assert(c.flatten() + next =~= es) by {
            assert(c.flatten() + next =~= (c.flatten() + o).push(e));
            assert(prev.push(e) =~= es);
        }
        assert forall|i: int| 0 <= i < es.len() implies encode::entry_fits(#[trigger] es[i]) by {
            if i < es.len() - 1 {
                assert(es[i] == prev[i]);
            }
        }
        assert forall|i: int, j: int| 0 <= i < j < es.len() implies (#[trigger] es[i]).0.le(
            (#[trigger] es[j]).0,
        ) by {
            broadcast use key::lemma_key_transitive;

            if j < es.len() - 1 {
                assert(es[i] == prev[i] && es[j] == prev[j]);
            } else {
                assert(es[i] == prev[i]);
                let l = prev.last();
                key::lemma_key_total(l.0, e.0);
                if i < prev.len() - 1 {
                    assert(prev[i].0.le(l.0));
                }
            }
        }
        assert(taken.hashes == written(es).hashes);
        assert forall|i: int| 0 <= i < es.len() implies taken.hashes.contains(
            bloom::key_hash((#[trigger] es[i]).0.user),
        ) by {
            if i < es.len() - 1 {
                assert(es[i] == prev[i]);
                let h = bloom::key_hash(prev[i].0.user);
                let x = choose|x: int| 0 <= x < v.hashes.len() && v.hashes[x] == h;
                assert(taken.hashes[x] == h);
            } else if v.last matches Some(l) && l.user == e.0.user {
                let h = bloom::key_hash(prev.last().0.user);
                let x = choose|x: int| 0 <= x < v.hashes.len() && v.hashes[x] == h;
                assert(taken.hashes[x] == h);
            } else {
                assert(taken.hashes.last() == bloom::key_hash(e.0.user));
            }
        }
        if 6 + payload(next).len() > BLOCK_SIZE {
            assert(written(es) == taken.closed());
            let nc = c.push(next);
            assert(nc.drop_last() =~= c);
            c.lemma_flatten_push(next);
            assert(cut(es).0.flatten() + cut(es).1 =~= es);
            assert(written(es).block =~= writer::empty_block() + payload(cut(es).1));
            assert forall|i: int| 0 <= i < nc.len() implies block_ok(#[trigger] nc[i]) by {
                if i < c.len() {
                    assert(nc[i] == c[i]);
                } else {
                    assert forall|x: int| 0 <= x < next.len() implies encode::entry_fits(
                        #[trigger] next[x],
                    ) by {
                        assert(next[x] == es[c.flatten().len() + x]);
                    }
                }
            }
        } else {
            assert(written(es) == taken);
        }
    }
}

/// A complete table holds its entries in good blocks.
pub proof fn lemma_blocks(es: Seq<Entry>)
    requires
        accepted(es),
        es.len() <= u64::MAX,
        es.len() > 0,
    ensures
        written(es).block.len() <= BLOCK_SIZE,
        written(es).closed().file == data(blocks(es)),
        written(es).closed().index == index_of(blocks(es)),
        blocks(es).flatten() == es,
        blocks_ok(blocks(es)),
        blocks(es).len() > 0,
{
    lemma_written(es);
    encode::lemma_be(0, 4);
    encode::lemma_be(0, 2);
    let v = written(es);
    let (c, o) = cut(es);
    let bs = blocks(es);
    assert(v.block.skip(6) =~= payload(o));
    if o.len() == 0 {
        assert(payload(o) =~= Seq::<u8>::empty());
        assert(v.closed() == v);
        assert(c.flatten() + o =~= c.flatten());
        if c.len() == 0 {
            assert(c.flatten().len() == 0);
        }
    } else {
        let last = o.last();
        encode::lemma_entry_len(last);
        assert(payload(o).len() >= 12);
        assert(bs.drop_last() =~= c);
        c.lemma_flatten_push(o);
        assert(v.closed().file == data(bs));
        assert(o.last() == es.last());
        assert forall|i: int| 0 <= i < bs.len() implies block_ok(#[trigger] bs[i]) by {
            if i < c.len() {
                assert(bs[i] == c[i]);
            } else {
                assert forall|x: int| 0 <= x < o.len() implies encode::entry_fits(
                    #[trigger] o[x],
                ) by {
                    assert(o[x] == es[c.flatten().len() + x]);
                }
            }
        }
    }
}

/// A writer does not refuse entries in key order for their order.
pub proof fn lemma_order_taken(es: Seq<Entry>)
    requires
        versions::ascending(es),
        es.len() <= u64::MAX,
    ensures
        !(first_refusal(es) matches Some(Refusal::Order(_, _))),
    decreases es.len(),
{
    broadcast use {key::lemma_key_irreflexive, key::lemma_key_asymmetric};

    if es.len() > 0 {
        let prev = es.drop_last();
        assert forall|i: int, j: int| 0 <= i < j < prev.len() implies (#[trigger] prev[i]).0.le(
            (#[trigger] prev[j]).0,
        ) by {
            assert(es[i].0.le(es[j].0));
        }
        lemma_order_taken(prev);
        if first_refusal(prev) is None {
            lemma_first_refusal(prev);
            lemma_written(prev);
            if prev.len() > 0 {
                assert(es[prev.len() - 1].0.le(es[es.len() - 1].0));
            }
        }
    }
}

/// The bytes of entries are as many as their volume.
pub proof fn lemma_volume(es: Seq<Entry>)
    ensures
        payload(es).len() == versions::volume(es),
        12 * es.len() <= versions::volume(es),
    decreases es.len(),
{
    if es.len() > 0 {
        lemma_volume(es.drop_last());
        encode::lemma_entry_len(es.last());
    }
}

/// A writer takes entries that stand in key order and of which none, behind a block
/// that is still open, makes that block longer than its length can say: whatever else
/// they hold, none is refused.
pub proof fn law_small_entries_are_taken(es: Seq<Entry>)
    requires
        forall|i: int, j: int|
            0 <= i < j < es.len() ==> (#[trigger] es[i]).0 == (#[trigger] es[j]).0 || es[i].0.lt(
                es[j].0,
            ),
        es.len() <= u64::MAX,
        forall|i: int|
            0 <= i < es.len() ==> 4096 + 12 + encode_utf8((#[trigger] es[i]).0.user).len() + (
            match es[i].1 {
                ValueView::Put(s) => encode_utf8(s).len(),
                ValueView::Delete => 0,
            }) <= 65535,
    ensures
        first_refusal(es) is None,
        accepted(es),
        written(es).entries == es.len(),
        written(es).block.len() <= 4096,
        written(es).hashes.len() <= es.len(),
    decreases es.len(),
{
    if es.len() > 0 {
        let (prev, e) = (es.drop_last(), es.last());
        assert forall|i: int, j: int| 0 <= i < j < prev.len() implies (#[trigger] prev[i]).0 == (
        #[trigger] prev[j]).0 || prev[i].0.lt(prev[j].0) by {
            assert(prev[i] == es[i] && prev[j] == es[j]);
        }
        assert forall|i: int| 0 <= i < prev.len() implies 4096 + 12 + encode_utf8(
            (#[trigger] prev[i]).0.user,
        ).len() + (match prev[i].1 {
            ValueView::Put(s) => encode_utf8(s).len(),
            ValueView::Delete => 0,
        }) <= 65535 by {
            assert(prev[i] == es[i]);
        }
        law_small_entries_are_taken(prev);
        lemma_written(prev);
        assert(es[es.len() - 1] == e);
        encode::lemma_entry_len(e);
        if prev.len() > 0 {
            let l = prev.last().0;
            assert(es[prev.len() - 1].0 == l);
            assert(l == e.0 || l.lt(e.0));
            key::lemma_key_irreflexive(e.0);
            if l.lt(e.0) {
                key::lemma_key_asymmetric(l, e.0);
            }
        }
        lemma_first_refusal(es);
        lemma_written(es);
        encode::lemma_be(0, 4);
        encode::lemma_be(0, 2);
    } else {
        encode::lemma_be(0, 4);
        encode::lemma_be(0, 2);
    }
}

/// An index has at most twice as many bytes as the entries that it is of.
proof fn lemma_index_volume(bs: Seq<Seq<Entry>>)
    requires
        blocks_ok(bs),
    ensures
        index::index_bytes(index_of(bs)).len() <= 2 * payload(bs.flatten()).len(),
    decreases bs.len(),
{
    if bs.len() > 0 {
        let (prev, b) = (bs.drop_last(), bs.last());
        assert forall|i: int| 0 <= i < prev.len() implies block_ok(#[trigger] prev[i]) by {
            assert(prev[i] == bs[i]);
        }
        lemma_index_volume(prev);
        assert(block_ok(bs[bs.len() - 1]));
        assert(prev.push(b) =~= bs);
        prev.lemma_flatten_push(b);
        lemma_payload_join(prev.flatten(), b);
        encode::lemma_entry_len(b.last());
        assert(payload(b).len() >= encode::entry_bytes(b.last()).len());
        let xs = index_of(bs);
        assert(xs.drop_last() =~= index_of(prev));
        index::lemma_index_len(xs.last());
    } else {
        assert(index::index_bytes(index_of(bs)) =~= Seq::<u8>::empty());
    }
}

/// Entries that a writer takes, and that have at most half as many bytes as a number of
/// four bytes can count, make a table: its filter and its index can be described.
pub proof fn law_small_tables_are_built(es: Seq<Entry>)
    requires
        forall|i: int, j: int|
            0 <= i < j < es.len() ==> (#[trigger] es[i]).0 == (#[trigger] es[j]).0 || es[i].0.lt(
                es[j].0,
            ),
        forall|i: int|
            0 <= i < es.len() ==> 4096 + 12 + encode_utf8((#[trigger] es[i]).0.user).len() + (
            match es[i].1 {
                ValueView::Put(s) => encode_utf8(s).len(),
                ValueView::Delete => 0,
            }) <= 65535,
        2 * versions::volume(es) <= u32::MAX,
    ensures
        first_refusal(es) is None,
        written(es).closed().describable(),
{
    lemma_volume(es);
    law_small_entries_are_taken(es);
    if es.len() > 0 {
        lemma_blocks(es);
        lemma_index_volume(blocks(es));
    } else {
        encode::lemma_be(0, 4);
        encode::lemma_be(0, 2);
        assert(index::index_bytes(written(es).closed().index) =~= Seq::<u8>::empty());
    }
    let n = written(es).hashes.len();
    assert(n * writer::BITS_PER_KEY == 10 * n);
}

/// The bytes of entries are those of each, one after the other.
pub proof fn law_payload(es: Seq<Entry>, e: Entry)
    ensures
        payload(Seq::<Entry>::empty()) == Seq::<u8>::empty(),
        payload(es.push(e)) == payload(es) + encode::entry_bytes(e),
{
    assert(es.push(e).drop_last() =~= es);
}

/// The sizes of the format: a block is closed behind 4096 bytes, its header has six, the
/// footer has 56 and ends with a fixed number, and the filter has ten bits for a key.
pub proof fn law_format_sizes()
    ensures
        BLOCK_SIZE == 4096,
        crate::sstable::BLOCK_HEADER == 6,
        crate::sstable::footer::FOOTER_LEN == 56,
        crate::sstable::footer::MAGIC == 0x5354_424C,
        writer::BITS_PER_KEY == 10,
{
}

} // verus!
