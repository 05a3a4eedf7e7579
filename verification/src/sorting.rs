//! Ascending order on 64-bit numbers.

use vstd::prelude::*;
use vstd::relations::{sorted_by, total_ordering};
use vstd::seq_lib::lemma_sorted_unique;

verus! {

/// The order `a <= b` on 64-bit numbers.
pub open spec fn ascending() -> spec_fn(u64, u64) -> bool {
    |a: u64, b: u64| a <= b
}

/// Whether no number in `values` is smaller than one before it.
pub open spec fn is_sorted(values: Seq<u64>) -> bool {
    forall|i: int, j: int| 0 <= i <= j < values.len() ==> values[i] <= values[j]
}

/// The numbers of `values` in ascending order, each as often as it occurs.
pub open spec fn sorted(values: Seq<u64>) -> Seq<u64> {
    values.sort_by(ascending())
}

/// `sorted` arranges: it keeps every number with its multiplicity and puts them in order.
pub proof fn lemma_sorted_arranges(values: Seq<u64>)
    ensures
        is_sorted(sorted(values)),
        sorted(values).to_multiset() == values.to_multiset(),
        sorted(values).len() == values.len(),
{
    assert(total_ordering(ascending()));
    values.lemma_sort_by_ensures(ascending());
    let s = sorted(values);
    assert forall|i: int, j: int| 0 <= i <= j < s.len() implies s[i] <= s[j] by {
        if i < j {
            assert(ascending()(s[i], s[j]));
        }
    }
    values.to_multiset_ensures();
    s.to_multiset_ensures();
}

/// There is one ascending arrangement of a multiset of numbers.
pub proof fn lemma_sorted_is(values: Seq<u64>, arranged: Seq<u64>)
    requires
        is_sorted(arranged),
        arranged.to_multiset() == values.to_multiset(),
    ensures
        arranged == sorted(values),
{
    lemma_sorted_arranges(values);
    assert(total_ordering(ascending()));
    assert(sorted_by(arranged, ascending()));
    assert(sorted_by(sorted(values), ascending()));
    lemma_sorted_unique(arranged, sorted(values), ascending());
}

/// The order in which numbers are given does not change their ascending arrangement.
pub proof fn lemma_sorted_of_rearranged(a: Seq<u64>, b: Seq<u64>)
    requires
        a.to_multiset() == b.to_multiset(),
    ensures
        sorted(a) == sorted(b),
{
    lemma_sorted_arranges(a);
    lemma_sorted_is(b, sorted(a));
}

/// `sort` of std on a slice of `u64`: puts the numbers in ascending order and
/// keeps each with its multiplicity.
#[verifier::external_body]
pub(crate) fn sort_values(values: &mut Vec<u64>)
    ensures
        is_sorted(final(values)@),
        final(values)@.to_multiset() == old(values)@.to_multiset(),
{
    values.sort()
}

} // verus!
