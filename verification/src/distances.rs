//! The requested window lengths: which of them are kept, and the order in
//! which they are answered.

use vstd::prelude::*;
use vstd::seq_lib::{
    lemma_multiset_commutative, to_multiset_build, to_multiset_contains, to_multiset_len,
};

verus! {

/// The requests that are answered: those of a positive length, in the order
/// in which they were made. A request of length zero asks for no window.
pub open spec fn retained(distances: Seq<u64>) -> Seq<u64> {
    distances.filter(|d: u64| d > 0)
}

/// No value is followed by a smaller one.
pub open spec fn ascending(values: Seq<u64>) -> bool {
    forall|i: int, j: int| 0 <= i <= j < values.len() ==> values[i] <= values[j]
}

/// `order` holds the retained requests, each as often as it was made, in
/// ascending order: the order in which requests are answered.
pub open spec fn is_answer_order(distances: Seq<u64>, order: Seq<u64>) -> bool {
    &&& ascending(order)
    &&& order.to_multiset() == retained(distances).to_multiset()
}

/// Whatever is answered was requested, and is not zero.
pub proof fn lemma_answered_was_requested(distances: Seq<u64>, order: Seq<u64>, d: u64)
    requires
        order.to_multiset() == retained(distances).to_multiset(),
        order.contains(d),
    ensures
        d > 0,
        distances.contains(d),
{
    to_multiset_contains(order, d);
    to_multiset_contains(retained(distances), d);
    let kept = retained(distances);
    let i = choose|i: int| 0 <= i < kept.len() && kept[i] == d;
    distances.lemma_filter_pred(|d: u64| d > 0, i);
    distances.lemma_filter_contains_rev(|d: u64| d > 0, d);
}

/// Whatever positive length was requested is answered.
pub proof fn lemma_requested_is_answered(distances: Seq<u64>, order: Seq<u64>, d: u64)
    requires
        order.to_multiset() == retained(distances).to_multiset(),
        distances.contains(d),
        d > 0,
    ensures
        order.contains(d),
{
    let i = choose|i: int| 0 <= i < distances.len() && distances[i] == d;
    distances.lemma_filter_contains(|d: u64| d > 0, i);
    to_multiset_contains(retained(distances), d);
    to_multiset_contains(order, d);
}

/// An answer order is as long as the number of requests retained.
pub proof fn lemma_answer_order_len(distances: Seq<u64>, order: Seq<u64>)
    requires
        order.to_multiset() == retained(distances).to_multiset(),
    ensures
        order.len() == retained(distances).len(),
        order.len() <= distances.len(),
{
    to_multiset_len(order);
    to_multiset_len(retained(distances));
    distances.lemma_filter_len(|d: u64| d > 0);
}

/// Copies the positive distances, in their order.
pub fn nonzero_distances(distances: &Vec<u64>) -> (kept: Vec<u64>)
    ensures
        kept@ == retained(distances@),
{
    let mut kept: Vec<u64> = Vec::new();
    let mut i: usize = 0;
    proof {
        reveal(Seq::filter);
        assert(distances@.take(0) =~= Seq::<u64>::empty());
    }
    while i < distances.len()
        invariant
            i <= distances.len(),
            kept@ == retained(distances@.take(i as int)),
        decreases distances.len() - i,
    {
        let d: u64 = distances[i];
        proof {
            let seen = distances@.take(i as int);
            assert(distances@.take(i + 1) =~= seen.push(d));
            seen.lemma_filter_push(d, |d: u64| d > 0);
        }
        if d > 0 {
            kept.push(d);
        }
        i += 1;
    }
    proof {
        assert(distances@.take(i as int) =~= distances@);
    }
    kept
}

/// Merges two ascending vectors into one.
fn merge(left: &Vec<u64>, right: &Vec<u64>) -> (merged: Vec<u64>)
    requires
        ascending(left@),
        ascending(right@),
    ensures
        ascending(merged@),
        merged@.to_multiset() == left@.to_multiset().add(right@.to_multiset()),
{
    let mut merged: Vec<u64> = Vec::new();
    let mut i: usize = 0;
    let mut j: usize = 0;
    proof {
        assert(merged@ =~= left@.take(0) + right@.take(0));
        lemma_multiset_commutative(left@.take(0), right@.take(0));
    }
    while i < left.len() || j < right.len()
        invariant
            i <= left.len(),
            j <= right.len(),
            ascending(left@),
            ascending(right@),
            ascending(merged@),
            merged@.to_multiset() == left@.take(i as int).to_multiset().add(
                right@.take(j as int).to_multiset(),
            ),
            forall|k: int| 0 <= k < merged.len() && i < left.len() ==> merged[k] <= left[i as int],
            forall|k: int|
                0 <= k < merged.len() && j < right.len() ==> merged[k] <= right[j as int],
        decreases left.len() - i + right.len() - j,
    {
        let from_left: bool = if i >= left.len() {
            false
        } else if j >= right.len() {
            true
        } else {
            left[i] <= right[j]
        };
        let ghost before = merged@;
        if from_left {
            let value: u64 = left[i];
            merged.push(value);
            proof {
                assert(left@.take(i + 1) =~= left@.take(i as int).push(value));
                to_multiset_build(before, value);
                to_multiset_build(left@.take(i as int), value);
                assert(merged@.to_multiset() =~= left@.take(i + 1).to_multiset().add(
                    right@.take(j as int).to_multiset(),
                ));
            }
            i += 1;
        } else {
            let value: u64 = right[j];
            merged.push(value);
            proof {
                assert(right@.take(j + 1) =~= right@.take(j as int).push(value));
                to_multiset_build(before, value);
                to_multiset_build(right@.take(j as int), value);
                assert(merged@.to_multiset() =~= left@.take(i as int).to_multiset().add(
                    right@.take(j + 1).to_multiset(),
                ));
            }
            j += 1;
        }
    }
    proof {
        assert(left@.take(i as int) =~= left@);
        assert(right@.take(j as int) =~= right@);
    }
    merged
}

/// Sorts the values into ascending order by merging sorted halves.
pub fn sort_ascending(values: Vec<u64>) -> (sorted: Vec<u64>)
    ensures
        ascending(sorted@),
        sorted@.to_multiset() == values@.to_multiset(),
    decreases values.len(),
{
    if values.len() <= 1 {
        return values;
    }
    let ghost whole = values@;
    let mut front = values;
    let middle: usize = front.len() / 2;
    let back = front.split_off(middle);
    proof {
        assert(whole =~= front@ + back@);
        lemma_multiset_commutative(front@, back@);
    }
    let front = sort_ascending(front);
    let back = sort_ascending(back);
    merge(&front, &back)
}

/// The requests in the order in which they are answered: the positive ones,
/// ascending.
pub fn answer_order(distances: &Vec<u64>) -> (order: Vec<u64>)
    ensures
        is_answer_order(distances@, order@),
{
    sort_ascending(nonzero_distances(distances))
}

} // verus!
