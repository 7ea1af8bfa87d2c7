//! An in-place ascending sort for 64-bit values, shared by the solvers
//! that need an order or a median.

use vstd::prelude::*;

verus! {

use vstd::relations::sorted_by;
use vstd::relations::total_ordering;
use vstd::seq_lib::lemma_sorted_unique;

broadcast use vstd::seq_lib::to_multiset_update;

/// The ordering the positions are sorted by.
pub open spec fn leq_u64() -> spec_fn(u64, u64) -> bool {
    |a: u64, b: u64| a <= b
}

/// The ascending order on 64-bit values is total.
pub proof fn lemma_leq_u64_total_ordering()
    ensures
        total_ordering(leq_u64()),
{
    assert(vstd::relations::reflexive(leq_u64())) by {
        assert forall|x: u64| #[trigger] leq_u64()(x, x) by {}
    }
    assert(vstd::relations::antisymmetric(leq_u64())) by {
        assert forall|x: u64, y: u64| #[trigger] leq_u64()(x, y) && #[trigger] leq_u64()(y, x)
            implies x == y by {}
    }
    assert(vstd::relations::transitive(leq_u64())) by {
        assert forall|x: u64, y: u64, z: u64| #[trigger] leq_u64()(x, y) && #[trigger] leq_u64()(
            y,
            z,
        ) implies leq_u64()(x, z) by {}
    }
    assert(vstd::relations::strongly_connected(leq_u64())) by {
        assert forall|x: u64, y: u64| #[trigger] leq_u64()(x, y) || #[trigger] leq_u64()(y, x) by {}
    }
}

/// Sort the values in place, ascending.
pub fn sort_u64(v: &mut Vec<u64>)
    ensures
        final(v)@ == old(v)@.sort_by(leq_u64()),
        sorted_by(final(v)@, leq_u64()),
        final(v)@.to_multiset() == old(v)@.to_multiset(),
        final(v)@.len() == old(v)@.len(),
{
    let ghost orig = old(v)@;
    let n = v.len();
    let mut i: usize = 0;
    while i < n
        invariant
            n == v@.len() <= usize::MAX,
            0 <= i <= n,
            v@.to_multiset() == orig.to_multiset(),
            forall|p: int, q: int| 0 <= p < q < i ==> v@[p] <= v@[q],
            forall|p: int, q: int| 0 <= p < i <= q < n ==> v@[p] <= v@[q],
        decreases n - i,
    {
        let mut m: usize = i;
        let mut j: usize = i + 1;
        while j < n
            invariant
                n == v@.len(),
                i <= m < j <= n,
                forall|k: int| i <= k < j ==> v@[m as int] <= #[trigger] v@[k],
            decreases n - j,
        {
            if v[j] < v[m] {
                m = j;
            }
            j = j + 1;
        }
        let ghost before = v@;
        let a = v[i];
        let b = v[m];
        v.set(i, b);
        v.set(m, a);
        proof {
            assert(v@ =~= before.update(i as int, b).update(m as int, a));
            if m == i {
                assert(v@ =~= before);
            } else {
                assert(before.update(i as int, b)[m as int] == before[m as int]);
                before.to_multiset_ensures();
                assert(before.contains(a)) by {
                    assert(before[i as int] == a);
                }
                assert(before.contains(b)) by {
                    assert(before[m as int] == b);
                }
                assert(before.to_multiset().count(a) > 0);
                assert(before.to_multiset().count(b) > 0);
                assert(v@.to_multiset() =~= before.to_multiset());
            }
        }
        i = i + 1;
    }
    proof {
        lemma_leq_u64_total_ordering();
        orig.lemma_sort_by_ensures(leq_u64());
        assert(sorted_by(v@, leq_u64())) by {
            assert forall|p: int, q: int| 0 <= p < q < v@.len() implies leq_u64()(v@[p], v@[q]) by {
                assert(v@[p] <= v@[q]);
            }
        }
        lemma_sorted_unique(v@, orig.sort_by(leq_u64()), leq_u64());
    }
}

} // verus!
