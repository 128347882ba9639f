//! Ascending order: sorting by insertion, and the sorted sequence of a
//! sequence of integers.
use vstd::prelude::*;

verus! {

/// The order ascending sequences are sorted by.
pub open spec fn ascending() -> spec_fn(int, int) -> bool {
    |a: int, b: int| a <= b
}

/// `xs` in ascending order.
pub open spec fn sorted_ascending(xs: Seq<int>) -> Seq<int> {
    xs.sort_by(ascending())
}

/// A sequence of numbers read as integers.
pub open spec fn ints(v: Seq<u32>) -> Seq<int> {
    v.map_values(|x: u32| x as int)
}

/// Each element is at most the ones after it.
pub open spec fn ascending_seq(xs: Seq<int>) -> bool {
    forall|i: int, j: int| 0 <= i < j < xs.len() ==> xs[i] <= xs[j]
}

pub(crate) proof fn lemma_ascending_total()
    ensures
        vstd::relations::total_ordering(ascending()),
{
    let leq = ascending();
    assert(vstd::relations::reflexive(leq));
    assert(vstd::relations::antisymmetric(leq));
    assert(vstd::relations::transitive(leq));
    assert(vstd::relations::strongly_connected(leq));
}

/// An ascending sequence with the same elements as `xs` is `sorted_ascending(xs)`.
pub(crate) proof fn lemma_is_sorted_ascending(xs: Seq<int>, ys: Seq<int>)
    requires
        ascending_seq(ys),
        ys.to_multiset() == xs.to_multiset(),
    ensures
        ys == sorted_ascending(xs),
{
    lemma_ascending_total();
    xs.lemma_sort_by_ensures(ascending());
    assert(vstd::relations::sorted_by(ys, ascending())) by {
        assert forall|i: int, j: int| 0 <= i < j < ys.len() implies #[trigger] (ascending())(ys[i], ys[j]) by {
        }
    }
    vstd::seq_lib::lemma_sorted_unique(ys, sorted_ascending(xs), ascending());
}

/// Inserts `x` into the ascending vector `v`, keeping it ascending.
pub(crate) fn insert_sorted(v: &mut Vec<u32>, x: u32)
    requires
        ascending_seq(ints(old(v)@)),
    ensures
        ascending_seq(ints(final(v)@)),
        ints(final(v)@).to_multiset() == ints(old(v)@).to_multiset().insert(x as int),
        final(v)@.len() == old(v)@.len() + 1,
{
    let mut pos: usize = 0;
    while pos < v.len() && v[pos] <= x
        invariant
            pos <= v.len(),
            forall|i: int| 0 <= i < pos ==> #[trigger] v@[i] <= x,
        decreases v.len() - pos,
    {
        pos = pos + 1;
    }
    let ghost before = ints(v@);
    v.insert(pos, x);
    proof {
        assert(ints(v@) =~= before.insert(pos as int, x as int));
        vstd::seq_lib::to_multiset_insert(before, pos as int, x as int);
        assert forall|i: int, j: int| 0 <= i < j < ints(v@).len() implies ints(v@)[i] <= ints(v@)[j] by {
            if j < pos {
                assert(before[i] <= before[j]);
            } else if j == pos {
                assert(v@[i] == before[i]);
            } else if i < pos {
                assert(before[i] <= before[j - 1]);
            } else if i == pos {
                if (pos as int) < before.len() {
                    assert(before[pos as int] <= before[j - 1]);
                }
            } else {
                assert(before[i - 1] <= before[j - 1]);
            }
        }
    }
}

} // verus!
