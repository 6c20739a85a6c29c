//! A filter that says which keys a table does not hold.

use vstd::prelude::*;
use vstd::slice::slice_subrange;
use vstd::utf8::*;

use crate::common::error::{unexpected_eof, DbError, DbResult};

verus! {

/// The bits of a filter, followed by one byte that says how many bits stand for
/// each key.
#[derive(Debug)]
pub struct BloomFilter(Vec<u8>);

impl View for BloomFilter {
    type V = Seq<u8>;

    closed spec fn view(&self) -> Seq<u8> {
        self.0@
    }
}

/// The FNV-1a hash of `bytes`.
pub open spec fn fnv1a(bytes: Seq<u8>) -> u64
    decreases bytes.len(),
{
    if bytes.len() == 0 {
        0xcbf2_9ce4_8422_2325
    } else {
        (fnv1a(bytes.drop_last()) ^ (bytes.last() as u64)).wrapping_mul(0x100_0000_01b3)
    }
}

/// The hash of a user key.
pub open spec fn key_hash(key: Seq<char>) -> u64 {
    fnv1a(encode_utf8(key))
}

/// `h` with its bits moved fifteen places up, those at the top coming in below.
pub open spec fn rotated(h: u64) -> u64 {
    (h << 15u64) | (h >> 49u64)
}

/// The `i`-th number that stands for the hash `h`.
pub open spec fn probe(h: u64, i: nat) -> u64
    decreases i,
{
    if i == 0 {
        h
    } else {
        probe(h, (i - 1) as nat).wrapping_add(rotated(h))
    }
}

/// How many bits stand for each key: 0.69 for every bit that a key is given,
/// within 1 and 30.
pub open spec fn probe_count(bits_per_key: nat) -> nat {
    let k = bits_per_key * 69 / 100;
    if k < 1 {
        1
    } else if k > 30 {
        30
    } else {
        k
    }
}

/// Bytes that hold the bits for `n` keys.
pub open spec fn filter_size(n: nat, bits_per_key: nat) -> nat {
    let bits = n * bits_per_key;
    if bits < 64 {
        8
    } else {
        (bits + 7) / 8
    }
}

/// Whether the bit at `pos` is set.
pub open spec fn bit_set(bytes: Seq<u8>, pos: int) -> bool {
    bytes[pos / 8] & (1u8 << ((pos % 8) as u8)) != 0
}

/// Whether one of the `k` bits that stand for `h` is at `pos`.
pub open spec fn probed(h: u64, k: nat, nbits: nat, pos: int) -> bool {
    exists|i: nat| i < k && (#[trigger] probe(h, i)) as int % nbits as int == pos
}

/// Whether one of the bits that stand for some of `hashes` is at `pos`.
pub open spec fn marked(hashes: Seq<u64>, k: nat, nbits: nat, pos: int) -> bool {
    exists|j: int| 0 <= j < hashes.len() && probed(#[trigger] hashes[j], k, nbits, pos)
}

/// Whether `bytes` is the filter for `hashes`: the bits that stand for them are
/// set, and no others.
pub open spec fn is_filter(bytes: Seq<u8>, hashes: Seq<u64>, bits_per_key: nat) -> bool {
    let n = filter_size(hashes.len(), bits_per_key);
    let k = probe_count(bits_per_key);
    &&& bytes.len() == n + 1
    &&& bytes.last() == k
    &&& forall|pos: int|
        0 <= pos < n * 8 ==> #[trigger] bit_set(bytes, pos) == marked(hashes, k, n * 8, pos)
}

/// Whether the filter `bytes` admits the hash `h`. A filter of less than two
/// bytes admits everything.
pub open spec fn admits(bytes: Seq<u8>, h: u64) -> bool {
    bytes.len() < 2 || forall|i: nat|
        i < bytes.last() ==> bit_set(
            bytes,
            (#[trigger] probe(h, i)) as int % ((bytes.len() - 1) * 8),
        )
}

proof fn lemma_set_bit(x: u8, i: u8, j: u8)
    requires
        i < 8,
        j < 8,
    ensures
        ((x | (1u8 << i)) & (1u8 << j) != 0) <==> (i == j || x & (1u8 << j) != 0),
{
    assert(i < 8 && j < 8 ==> (((x | (1u8 << i)) & (1u8 << j) != 0) <==> (i == j || x & (1u8 << j)
        != 0))) by (bit_vector);
}

/// A filter admits every hash that it was made for.
pub proof fn law_no_false_negatives(bytes: Seq<u8>, hashes: Seq<u64>, bits_per_key: nat, h: u64)
    requires
        is_filter(bytes, hashes, bits_per_key),
        hashes.contains(h),
    ensures
        admits(bytes, h),
{
    let n = filter_size(hashes.len(), bits_per_key);
    let k = probe_count(bits_per_key);
    let j = choose|j: int| 0 <= j < hashes.len() && hashes[j] == h;
    assert forall|i: nat| i < bytes.last() implies bit_set(
        bytes,
        (#[trigger] probe(h, i)) as int % ((bytes.len() - 1) * 8),
    ) by {
        let pos = probe(h, i) as int % (n * 8) as int;
        assert(0 <= pos < n * 8);
        assert(probed(hashes[j], k, n * 8, pos));
        assert(marked(hashes, k, n * 8, pos));
        assert(bit_set(bytes, pos));
    }
}

/// The filter for hashes is determined by them: two filters for the same hashes
/// are the same bytes.
pub proof fn law_filter_is_determined(a: Seq<u8>, b: Seq<u8>, hashes: Seq<u64>, bits_per_key: nat)
    requires
        is_filter(a, hashes, bits_per_key),
        is_filter(b, hashes, bits_per_key),
    ensures
        a == b,
{
    let n = filter_size(hashes.len(), bits_per_key);
    assert forall|i: int| 0 <= i < n implies a[i] == b[i] by {
        let (x, y) = (a[i], b[i]);
        assert forall|j: u8| j < 8 implies (x & (1u8 << j) != 0) == (#[trigger] (y & (1u8 << j))
            != 0) by {
            let pos = i * 8 + j;
            assert(pos / 8 == i && pos % 8 == j);
            assert(bit_set(a, pos) == bit_set(b, pos));
        }
        assert((x & (1u8 << 0u8) != 0) == (y & (1u8 << 0u8) != 0));
        assert((x & (1u8 << 1u8) != 0) == (y & (1u8 << 1u8) != 0));
        assert((x & (1u8 << 2u8) != 0) == (y & (1u8 << 2u8) != 0));
        assert((x & (1u8 << 3u8) != 0) == (y & (1u8 << 3u8) != 0));
        assert((x & (1u8 << 4u8) != 0) == (y & (1u8 << 4u8) != 0));
        assert((x & (1u8 << 5u8) != 0) == (y & (1u8 << 5u8) != 0));
        assert((x & (1u8 << 6u8) != 0) == (y & (1u8 << 6u8) != 0));
        assert((x & (1u8 << 7u8) != 0) == (y & (1u8 << 7u8) != 0));
        assert(x == y) by (bit_vector)
            requires
                (x & (1u8 << 0u8) != 0) == (y & (1u8 << 0u8) != 0),
                (x & (1u8 << 1u8) != 0) == (y & (1u8 << 1u8) != 0),
                (x & (1u8 << 2u8) != 0) == (y & (1u8 << 2u8) != 0),
                (x & (1u8 << 3u8) != 0) == (y & (1u8 << 3u8) != 0),
                (x & (1u8 << 4u8) != 0) == (y & (1u8 << 4u8) != 0),
                (x & (1u8 << 5u8) != 0) == (y & (1u8 << 5u8) != 0),
                (x & (1u8 << 6u8) != 0) == (y & (1u8 << 6u8) != 0),
                (x & (1u8 << 7u8) != 0) == (y & (1u8 << 7u8) != 0),
        ;
    }
    assert(a =~= b);
}

fn rotate(h: u64) -> (r: u64)
    ensures
        r == rotated(h),
{
    (h << 15u64) | (h >> 49u64)
}

impl BloomFilter {
    /// The filter is small enough to count its bits.
    pub open spec fn wf(&self) -> bool {
        self@.len() * 8 <= u64::MAX
    }

    /// Reads `len` bytes at `at` as a filter.
    pub fn read(data: &[u8], at: u64, len: u32) -> (r: DbResult<Self>)
        ensures
            r is Ok <==> len == 0 || at + len <= data@.len(),
            r matches Ok(b) ==> b.wf() && b@ == (if len == 0 {
                Seq::empty()
            } else {
                data@.subrange(at as int, at + len)
            }),
            r matches Err(e) ==> e is IO,
    {
        let mut bloom: Vec<u8> = Vec::new();
        if len > 0 {
            let size: u64 = data.len() as u64;
            if at > size || size - at < len as u64 {
                return Err(DbError::IO(unexpected_eof()));
            }
            bloom.extend_from_slice(
                slice_subrange(data, at as usize, at as usize + len as usize),
            );
            assert(bloom@ =~= data@.subrange(at as int, at + len));
        } else {
            assert(bloom@ =~= Seq::<u8>::empty());
        }
        Ok(Self(bloom))
    }

    /// Makes the filter for `hashes`.
    pub fn build(hashes: &[u64], bits_per_key: usize) -> (r: Self)
        requires
            hashes@.len() * bits_per_key + 7 <= usize::MAX,
            (filter_size(hashes@.len(), bits_per_key as nat) + 1) * 8 <= u64::MAX,
        ensures
            r.wf(),
            is_filter(r@, hashes@, bits_per_key as nat),
    {
        let k: u64 = if bits_per_key >= 44 {
            30
        } else if bits_per_key < 2 {
            1
        } else {
            bits_per_key as u64 * 69 / 100
        };
        assert(k == probe_count(bits_per_key as nat));
        let wanted: usize = hashes.len() * bits_per_key;
        let nbytes: usize = if wanted < 64 {
            8
        } else {
            (wanted + 7) / 8
        };
        assert(nbytes == filter_size(hashes@.len(), bits_per_key as nat));
        let nbits: u64 = nbytes as u64 * 8;
        let mut out: Vec<u8> = Vec::new();
        while out.len() < nbytes
            invariant
                out@.len() <= nbytes,
                forall|i: int| 0 <= i < out@.len() ==> out@[i] == 0,
            decreases nbytes - out@.len(),
        {
            out.push(0);
        }
        assert forall|pos: int| 0 <= pos < nbits implies #[trigger] bit_set(out@, pos) == marked(
            hashes@.take(0),
            k as nat,
            nbits as nat,
            pos,
        ) by {
            let b = (pos % 8) as u8;
            assert(0u8 & (1u8 << b) == 0) by (bit_vector);
        }
        let mut j: usize = 0;
        while j < hashes.len()
            invariant
                j <= hashes@.len(),
                out@.len() == nbytes,
                nbits == nbytes * 8,
                nbytes >= 8,
                forall|pos: int|
                    0 <= pos < nbits ==> #[trigger] bit_set(out@, pos) == marked(
                        hashes@.take(j as int),
                        k as nat,
                        nbits as nat,
                        pos,
                    ),
            decreases hashes@.len() - j,
        {
            let h: u64 = hashes[j];
            let delta: u64 = rotate(h);
            let mut b: u64 = h;
            let mut i: u64 = 0;
            let ghost done = hashes@.take(j as int);
            while i < k
                invariant
                    i <= k,
                    out@.len() == nbytes,
                    nbits == nbytes * 8,
                    nbytes >= 8,
                    delta == rotated(h),
                    b == probe(h, i as nat),
                    forall|pos: int|
                        0 <= pos < nbits ==> #[trigger] bit_set(out@, pos) == (marked(
                            done,
                            k as nat,
                            nbits as nat,
                            pos,
                        ) || probed(h, i as nat, nbits as nat, pos)),
                decreases k - i,
            {
                let pos: u64 = b % nbits;
                let at: usize = (pos / 8) as usize;
                let bit: u8 = (pos % 8) as u8;
                let ghost before = out@;
                let byte: u8 = out[at];
                out.set(at, byte | (1u8 << bit));
                assert forall|p: int| 0 <= p < nbits implies #[trigger] bit_set(out@, p) == (marked(
                    done,
                    k as nat,
                    nbits as nat,
                    p,
                ) || probed(h, (i + 1) as nat, nbits as nat, p)) by {
                    lemma_set_bit(byte, bit, (p % 8) as u8);
                    assert(bit_set(out@, p) == (p == pos || bit_set(before, p)));
                    assert(probe(h, i as nat) as int % nbits as int == pos);
                    if p == pos {
                        assert(probed(h, (i + 1) as nat, nbits as nat, p));
                    }
                    if probed(h, i as nat, nbits as nat, p) {
                        let x = choose|x: nat|
                            x < i && (#[trigger] probe(h, x)) as int % nbits as int == p;
                        assert(probe(h, x) as int % nbits as int == p);
                    }
                    if probed(h, (i + 1) as nat, nbits as nat, p) && p != pos {
                        let x = choose|x: nat|
                            x < i + 1 && (#[trigger] probe(h, x)) as int % nbits as int == p;
                        assert(x < i);
                    }
                }
                b = b.wrapping_add(delta);
                i += 1;
            }
            assert forall|pos: int| 0 <= pos < nbits implies #[trigger] bit_set(out@, pos)
                == marked(hashes@.take(j + 1), k as nat, nbits as nat, pos) by {
                let next = hashes@.take(j + 1);
                if marked(done, k as nat, nbits as nat, pos) {
                    let x = choose|x: int|
                        0 <= x < done.len() && probed(
                            #[trigger] done[x],
                            k as nat,
                            nbits as nat,
                            pos,
                        );
                    assert(next[x] == done[x]);
                }
                assert(next[j as int] == h);
                if marked(next, k as nat, nbits as nat, pos) {
                    let x = choose|x: int|
                        0 <= x < next.len() && probed(
                            #[trigger] next[x],
                            k as nat,
                            nbits as nat,
                            pos,
                        );
                    if x < j {
                        assert(done[x] == next[x]);
                    }
                }
            }
            j += 1;
        }
        assert(hashes@.take(j as int) =~= hashes@);
        let ghost bits = out@;
        out.push(k as u8);
        assert forall|pos: int| 0 <= pos < nbytes * 8 implies #[trigger] bit_set(out@, pos)
            == marked(hashes@, k as nat, (nbytes * 8) as nat, pos) by {
            assert(out@[pos / 8] == bits[pos / 8]);
            assert(bit_set(bits, pos) == bit_set(out@, pos));
        }
        Self(out)
    }

    /// Whether the table may hold `key`.
    pub fn may_contain(&self, key: &str) -> (r: bool)
        requires
            self.wf(),
        ensures
            r == admits(self@, key_hash(key@)),
    {
        let size: usize = self.0.len();
        if size < 2 {
            return true;
        }
        let k: u64 = self.0[size - 1] as u64;
        let nbits: u64 = (size - 1) as u64 * 8;
        let h: u64 = Self::hash64(key);
        let delta: u64 = rotate(h);
        let mut b: u64 = h;
        let mut i: u64 = 0;
        while i < k
            invariant
                i <= k,
                size == self@.len(),
                size >= 2,
                k == self@.last(),
                nbits == (size - 1) * 8,
                h == key_hash(key@),
                delta == rotated(h),
                b == probe(h, i as nat),
                forall|x: nat|
                    x < i ==> bit_set(
                        self@,
                        (#[trigger] probe(h, x)) as int % ((self@.len() - 1) * 8),
                    ),
            decreases k - i,
        {
            let pos: u64 = b % nbits;
            let byte: u8 = self.0[(pos / 8) as usize];
            assert(pos == probe(h, i as nat) as int % ((self@.len() - 1) * 8));
            if byte & (1u8 << ((pos % 8) as u8)) == 0 {
                assert(!bit_set(self@, pos as int));
                return false;
            }
            b = b.wrapping_add(delta);
            i += 1;
        }
        true
    }

    /// The bytes of the filter.
    pub fn as_bytes(&self) -> (r: &[u8])
        ensures
            r@ == self@,
    {
        self.0.as_slice()
    }

    /// The FNV-1a hash of a key.
    pub fn hash64(key: &str) -> (h: u64)
        ensures
            h == key_hash(key@),
    {
        let b = key.as_bytes();
        let mut h: u64 = 0xcbf2_9ce4_8422_2325;
        let mut i: usize = 0;
        while i < b.len()
            invariant
                i <= b@.len(),
                b@ == encode_utf8(key@),
                h == fnv1a(b@.take(i as int)),
            decreases b@.len() - i,
        {
            assert(b@.take(i + 1).drop_last() =~= b@.take(i as int));
            h = (h ^ (b[i] as u64)).wrapping_mul(0x100_0000_01b3);
            i += 1;
        }
        assert(b@.take(i as int) =~= b@);
        h
    }

    /// Bytes that the filter takes in a file.
    pub fn disk_size(&self) -> (n: usize)
        ensures
            n == self@.len(),
    {
        self.0.len()
    }
}

impl Clone for BloomFilter {
    fn clone(&self) -> (r: Self)
        ensures
            r@ == self@,
    {
        let mut bytes: Vec<u8> = Vec::new();
        bytes.extend_from_slice(self.0.as_slice());
        assert(bytes@ =~= self.0@);
        Self(bytes)
    }
}

/// The hash of one byte more: it is mixed in, and the hash multiplied.
pub proof fn law_hash(bytes: Seq<u8>, b: u8, key: Seq<char>)
    ensures
        fnv1a(Seq::<u8>::empty()) == 0xcbf2_9ce4_8422_2325,
        fnv1a(bytes.push(b)) == (fnv1a(bytes) ^ (b as u64)).wrapping_mul(0x100_0000_01b3),
        key_hash(key) == fnv1a(encode_utf8(key)),
{
    assert(bytes.push(b).drop_last() =~= bytes);
}

/// The numbers that stand for a hash: the first is the hash, and each further one adds
/// the hash with its bits moved fifteen places up.
pub proof fn law_probe(h: u64, i: nat)
    ensures
        probe(h, 0) == h,
        probe(h, i + 1) == probe(h, i).wrapping_add((h << 15u64) | (h >> 49u64)),
{
}

/// The filter of a table has ten bits for each key, but at least 64, and a byte that
/// says that six of them stand for a key. A bit is set exactly when it is one of the
/// six of some key.
pub proof fn law_filter_bits(bytes: Seq<u8>, hashes: Seq<u64>, pos: int)
    requires
        is_filter(bytes, hashes, 10),
        0 <= pos < 8 * (bytes.len() - 1),
    ensures
        bytes.len() == 1 + (if 10 * hashes.len() < 64 {
            8
        } else {
            (10 * hashes.len() + 7) / 8
        }),
        bytes.last() == 6,
        bytes[pos / 8] & (1u8 << ((pos % 8) as u8)) != 0 <==> exists|j: int, i: nat|
            0 <= j < hashes.len() && i < 6 && #[trigger] probe(hashes[j], i) as int % (8 * (
            bytes.len() - 1)) == pos,
{
    let n = filter_size(hashes.len(), 10);
    assert(bit_set(bytes, pos) == marked(hashes, 6, n * 8, pos));
    if marked(hashes, 6, n * 8, pos) {
        let j = choose|j: int| 0 <= j < hashes.len() && probed(#[trigger] hashes[j], 6, n * 8, pos);
        let i = choose|i: nat| i < 6 && (#[trigger] probe(hashes[j], i)) as int % (n * 8) as int
            == pos;
        assert(probe(hashes[j], i) as int % (8 * (bytes.len() - 1)) == pos);
    }
    if exists|j: int, i: nat|
        0 <= j < hashes.len() && i < 6 && #[trigger] probe(hashes[j], i) as int % (8 * (bytes.len()
            - 1)) == pos {
        let (j, i) = choose|j: int, i: nat|
            0 <= j < hashes.len() && i < 6 && #[trigger] probe(hashes[j], i) as int % (8 * (
            bytes.len() - 1)) == pos;
        assert(probed(hashes[j], 6, n * 8, pos));
    }
}

/// A filter admits a hash exactly when all bits that stand for it are set, and one of
/// less than two bytes admits everything.
pub proof fn law_admitted(bytes: Seq<u8>, h: u64)
    ensures
        bytes.len() < 2 ==> admits(bytes, h),
        bytes.len() >= 2 ==> (admits(bytes, h) <==> forall|i: nat|
            i < bytes.last() ==> {
                let pos = (#[trigger] probe(h, i)) as int % (8 * (bytes.len() - 1));
                bytes[pos / 8] & (1u8 << ((pos % 8) as u8)) != 0
            }),
{
    if bytes.len() >= 2 {
        assert((bytes.len() - 1) * 8 == 8 * (bytes.len() - 1));
    }
}

} // verus!
