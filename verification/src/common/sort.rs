//! Sorting numbers.

use vstd::prelude::*;

verus! {

/// Whether numbers stand in ascending order.
pub open spec fn ordered(v: Seq<u64>) -> bool {
    forall|i: int, j: int| 0 <= i < j < v.len() ==> v[i] <= v[j]
}

/// Where `x` belongs in an ordered vector.
fn place(v: &Vec<u64>, x: u64) -> (p: usize)
    requires
        ordered(v@),
    ensures
        p <= v@.len(),
        forall|i: int| 0 <= i < p ==> v@[i] <= x,
        forall|i: int| p <= i < v@.len() ==> v@[i] > x,
{
    let mut p: usize = 0;
    while p < v.len() && v[p] <= x
        invariant
            p <= v@.len(),
            forall|i: int| 0 <= i < p ==> v@[i] <= x,
        decreases v@.len() - p,
    {
        p += 1;
    }
    p
}

/// The numbers of `v` in ascending order.
pub fn sorted_ids(v: &Vec<u64>) -> (r: Vec<u64>)
    ensures
        ordered(r@),
        r@.to_multiset() == v@.to_multiset(),
        r@.len() == v@.len(),
        forall|x: u64| r@.contains(x) <==> v@.contains(x),
{
    broadcast use vstd::seq_lib::group_to_multiset_ensures;

    let mut r: Vec<u64> = Vec::new();
    let mut i: usize = 0;
    assert(v@.take(0) =~= Seq::<u64>::empty());
    while i < v.len()
        invariant
            i <= v@.len(),
            ordered(r@),
            r@.to_multiset() == v@.take(i as int).to_multiset(),
        decreases v@.len() - i,
    {
        let x: u64 = v[i];
        let p: usize = place(&r, x);
        let ghost before = r@;
        r.insert(p, x);
        assert(r@ =~= before.insert(p as int, x));
        proof {
            r@.to_multiset_ensures();
            assert(r@.remove(p as int) =~= before);
            assert(r@[p as int] == x);
            assert(r@.contains(x));
            assert(r@.to_multiset() =~= before.to_multiset().insert(x));
            v@.take(i as int).to_multiset_ensures();
            assert(v@.take(i + 1) =~= v@.take(i as int).push(x));
        }
        i += 1;
    }
    assert(v@.take(i as int) =~= v@);
    proof {
        r@.to_multiset_ensures();
        v@.to_multiset_ensures();
        assert forall|x: u64| r@.contains(x) <==> v@.contains(x) by {
            assert(r@.contains(x) <==> r@.to_multiset().count(x) > 0);
            assert(v@.contains(x) <==> v@.to_multiset().count(x) > 0);
        }
    }
    r
}

} // verus!
