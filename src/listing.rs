//! The order in which the entries of a directory are processed.

use vstd::prelude::*;
use crate::numbers::views;
use crate::order::{
    is_sorted,
    lemma_lt_asymmetric,
    lemma_lt_total,
    lemma_lt_transitive,
    seq_lt,
    str_lt,
};

verus! {

broadcast use vstd::seq_lib::group_to_multiset_ensures;

/// The entry paths of a directory, in the order of `str`: whatever order the
/// file system gave them in, the result holds the same paths, sorted.
pub fn sort_entries(list: &Vec<String>) -> (r: Vec<String>)
    ensures
        is_sorted(views(r@)),
        views(r@).to_multiset() == views(list@).to_multiset(),
{
    let mut r: Vec<String> = Vec::new();
    let mut i: usize = 0;
    while i < list.len()
        invariant
            i <= list@.len(),
            is_sorted(views(r@)),
            views(r@).to_multiset() == views(list@.take(i as int)).to_multiset(),
        decreases list@.len() - i,
    {
        let x = list[i].clone();
        let mut k: usize = 0;
        while k < r.len() && !str_lt(x.as_str(), r[k].as_str())
            invariant
                k <= r@.len(),
                forall|j: int| 0 <= j < k ==> !seq_lt(x@, #[trigger] r@[j]@),
            decreases r@.len() - k,
        {
            k = k + 1;
        }
        let ghost old_v = views(r@);
        proof {
            let new_v = old_v.insert(k as int, x@);
            assert forall|a: int, b: int| 0 <= a < b < new_v.len() implies !seq_lt(
                #[trigger] new_v[b],
                #[trigger] new_v[a],
            ) by {
                if b == k {
                    assert(new_v[a] == r@[a]@);
                } else if a == k {
                    assert(new_v[b] == old_v[b - 1]);
                    lemma_lt_asymmetric(x@, old_v[k as int]);
                    lemma_lt_transitive(old_v[b - 1], x@, old_v[k as int]);
                } else if a < k && b > k {
                    assert(new_v[b] == old_v[b - 1]);
                }
            }
            assert(list@.take(i + 1) =~= list@.take(i as int).push(list@[i as int]));
            assert(views(list@.take(i + 1)) =~= views(list@.take(i as int)).push(x@));
            vstd::seq_lib::to_multiset_insert(old_v, k as int, x@);
        }
        r.insert(k, x);
        assert(views(r@) =~= old_v.insert(k as int, x@));
        i = i + 1;
    }
    assert(list@.take(list@.len() as int) =~= list@);
    r
}

/// Two sorted sequences with the same elements are equal.
pub proof fn lemma_sorted_unique(a: Seq<Seq<char>>, b: Seq<Seq<char>>)
    requires
        is_sorted(a),
        is_sorted(b),
        a.to_multiset() == b.to_multiset(),
    ensures
        a == b,
    decreases a.len(),
{
    if a.len() == 0 {
        assert(b.len() == 0);
        assert(a =~= b);
    } else {
        assert(a.contains(a[0]));
        assert(b.to_multiset().count(a[0]) > 0);
        let j = choose|j: int| 0 <= j < b.len() && b[j] == a[0];
        assert(b.contains(b[0]));
        assert(a.to_multiset().count(b[0]) > 0);
        let m = choose|m: int| 0 <= m < a.len() && a[m] == b[0];
        if j > 0 {
            assert(!seq_lt(b[j], b[0]));
        }
        if m > 0 {
            assert(!seq_lt(a[m], a[0]));
        }
        lemma_lt_total(a[0], b[0]);
        assert(a[0] == b[0]);
        vstd::seq_lib::to_multiset_remove(a, 0);
        vstd::seq_lib::to_multiset_remove(b, 0);
        assert(a.remove(0) =~= a.drop_first());
        assert(b.remove(0) =~= b.drop_first());
        assert(is_sorted(a.drop_first()));
        assert(is_sorted(b.drop_first()));
        lemma_sorted_unique(a.drop_first(), b.drop_first());
        assert(a =~= seq![a[0]] + a.drop_first());
        assert(b =~= seq![b[0]] + b.drop_first());
    }
}

/// The processing order depends on the set of entries alone: two listings
/// of the same paths, in any two orders, are sorted into the same sequence.
pub proof fn lemma_entry_order_canonical(
    first: Seq<Seq<char>>,
    second: Seq<Seq<char>>,
    first_sorted: Seq<Seq<char>>,
    second_sorted: Seq<Seq<char>>,
)
    requires
        first.to_multiset() == second.to_multiset(),
        is_sorted(first_sorted),
        first_sorted.to_multiset() == first.to_multiset(),
        is_sorted(second_sorted),
        second_sorted.to_multiset() == second.to_multiset(),
    ensures
        first_sorted == second_sorted,
{
    lemma_sorted_unique(first_sorted, second_sorted);
}

} // verus!
