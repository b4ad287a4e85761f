//! A permutation of a sequence, seen through any per-element map, is still a
//! permutation: the lemma the shuffling contracts rest on.
use vstd::prelude::*;

verus! {

/// Law: sequences with equal multisets keep equal multisets under any
/// per-element map. A shuffled question list therefore keeps the multiset of
/// whatever each question is projected to.
pub proof fn lemma_map_values_to_multiset<A, B>(a: Seq<A>, b: Seq<A>, f: spec_fn(A) -> B)
    requires
        a.to_multiset() == b.to_multiset(),
    ensures
        a.map_values(f).to_multiset() == b.map_values(f).to_multiset(),
    decreases a.len(),
{
    broadcast use vstd::seq_lib::group_to_multiset_ensures;
    broadcast use vstd::multiset::group_multiset_axioms;

    if a.len() == 0 {
        vstd::seq_lib::to_multiset_len(a);
        vstd::seq_lib::to_multiset_len(b);
        assert(b.len() == 0);
        assert(a.map_values(f) =~= Seq::<B>::empty());
        assert(b.map_values(f) =~= Seq::<B>::empty());
    } else {
        let x = a[0];
        assert(a.contains(x));
        assert(b.to_multiset().count(x) > 0);
        assert(b.contains(x));
        let i = choose|i: int| 0 <= i < b.len() && b[i] == x;
        let a1 = a.remove(0);
        let b1 = b.remove(i);
        assert(a1.to_multiset() == a.to_multiset().remove(x));
        assert(b1.to_multiset() == b.to_multiset().remove(x));
        lemma_map_values_to_multiset(a1, b1, f);
        let am = a.map_values(f);
        let bm = b.map_values(f);
        assert(am.remove(0) =~= a1.map_values(f));
        assert(bm.remove(i) =~= b1.map_values(f));
        assert(am.remove(0).to_multiset() == am.to_multiset().remove(f(x)));
        assert(bm.remove(i).to_multiset() == bm.to_multiset().remove(f(x)));
        assert(am.contains(f(x))) by {
            assert(am[0] == f(x));
        }
        assert(bm.contains(f(x))) by {
            assert(bm[i] == f(x));
        }
        assert forall|y: B| am.to_multiset().count(y) == bm.to_multiset().count(y) by {
            if y == f(x) {
                assert(am.to_multiset().remove(f(x)).count(y) + 1 == am.to_multiset().count(y));
                assert(bm.to_multiset().remove(f(x)).count(y) + 1 == bm.to_multiset().count(y));
            } else {
                assert(am.to_multiset().remove(f(x)).count(y) == am.to_multiset().count(y));
                assert(bm.to_multiset().remove(f(x)).count(y) == bm.to_multiset().count(y));
            }
        }
        assert(am.to_multiset() =~= bm.to_multiset());
    }
}

/// Law: every element of a sequence whose multiset equals another's occurs
/// in that other sequence.
pub proof fn lemma_multiset_eq_element_source<A>(a: Seq<A>, b: Seq<A>, i: int)
    requires
        a.to_multiset() == b.to_multiset(),
        0 <= i < b.len(),
    ensures
        exists|j: int| 0 <= j < a.len() && a[j] == b[i],
{
    broadcast use vstd::seq_lib::group_to_multiset_ensures;

    assert(b.contains(b[i]));
    assert(a.to_multiset().count(b[i]) > 0);
    assert(a.contains(b[i]));
}

} // verus!
