//! The majority vote among the labels of the nearest candidates.
//!
//! The label that occurs most often wins. Among labels that occur equally
//! often, the lowest label value wins, so the outcome never depends on the
//! order in which a hash map happens to be walked.

use std::collections::HashMap;
use vstd::prelude::*;
use crate::neighbors::{Neighbor, labels_of};

verus! {

broadcast use vstd::std_specs::hash::group_hash_axioms;

/// How many times `l` occurs in `labels`.
pub open spec fn occurrences(labels: Seq<i64>, l: i64) -> nat
    decreases labels.len(),
{
    if labels.len() == 0 {
        0
    } else {
        occurrences(labels.drop_last(), l) + if labels.last() == l { 1nat } else { 0nat }
    }
}

/// `l` occurs in `labels`, no label occurs more often, and no lower label
/// occurs as often.
pub open spec fn is_majority(labels: Seq<i64>, l: i64) -> bool {
    &&& occurrences(labels, l) > 0
    &&& forall|m: i64| #[trigger]
        occurrences(labels, m) < occurrences(labels, l) || (occurrences(labels, m) == occurrences(
            labels,
            l,
        ) && l <= m)
}

/// The winner of the vote among a non-empty sequence of labels.
pub open spec fn majority(labels: Seq<i64>) -> i64 {
    choose|l: i64| is_majority(labels, l)
}

/// A label occurs at most as often as there are labels.
pub proof fn lemma_occurrences_bounded(labels: Seq<i64>, l: i64)
    ensures
        occurrences(labels, l) <= labels.len(),
    decreases labels.len(),
{
    if labels.len() > 0 {
        lemma_occurrences_bounded(labels.drop_last(), l);
    }
}

/// A label that stands somewhere in `labels` occurs at least once.
pub proof fn lemma_present_occurs(labels: Seq<i64>, i: int)
    requires
        0 <= i < labels.len(),
    ensures
        occurrences(labels, labels[i]) > 0,
    decreases labels.len(),
{
    if i < labels.len() - 1 {
        lemma_present_occurs(labels.drop_last(), i);
    }
}

/// A label that occurs at least once stands somewhere in `labels`.
pub proof fn lemma_occurring_present(labels: Seq<i64>, l: i64) -> (i: int)
    requires
        occurrences(labels, l) > 0,
    ensures
        0 <= i < labels.len(),
        labels[i] == l,
    decreases labels.len(),
{
    if labels.last() == l {
        labels.len() - 1
    } else {
        lemma_occurring_present(labels.drop_last(), l)
    }
}

/// A vote has at most one winner.
pub proof fn lemma_majority_unique(labels: Seq<i64>, a: i64, b: i64)
    requires
        is_majority(labels, a),
        is_majority(labels, b),
    ensures
        a == b,
{
    let na = occurrences(labels, a);
    let nb = occurrences(labels, b);
    assert(nb < na || (nb == na && a <= b));
    assert(na < nb || (na == nb && b <= a));
}

/// The label that occurs most often among the candidates; the lowest such
/// label where several occur equally often.
pub fn max_count(closest: &Vec<Neighbor>) -> (label: i64)
    requires
        closest@.len() > 0,
    ensures
        is_majority(labels_of(closest@), label),
        label == majority(labels_of(closest@)),
{
    let ghost labels = labels_of(closest@);
    let mut counter: HashMap<i64, usize> = HashMap::new();
    let mut i: usize = 0;
    while i < closest.len()
        invariant
            i <= closest@.len(),
            labels == labels_of(closest@),
            forall|l: i64| #[trigger]
                counter@.contains_key(l) <==> occurrences(labels.take(i as int), l) > 0,
            forall|l: i64| #[trigger]
                counter@.contains_key(l) ==> counter@[l] == occurrences(labels.take(i as int), l),
        decreases closest@.len() - i,
    {
        let l = closest[i].label;
        let seen: usize = match counter.get(&l) {
            Some(n) => *n,
            None => 0,
        };
        proof {
            lemma_occurrences_bounded(labels.take(i as int), l);
            assert(labels.take(i + 1).drop_last() =~= labels.take(i as int));
            assert(labels.take(i + 1).last() == l);
        }
        counter.insert(l, seen + 1);
        i = i + 1;
    }
    assert(labels.take(i as int) =~= labels);

    let first = closest[0].label;
    proof {
        lemma_present_occurs(labels, 0);
    }
    let mut label: i64 = first;
    let mut votes: usize = match counter.get(&first) {
        Some(n) => *n,
        None => 0,
    };
    let mut j: usize = 1;
    while j < closest.len()
        invariant
            1 <= j <= closest@.len(),
            labels == labels_of(closest@),
            forall|l: i64| #[trigger]
                counter@.contains_key(l) <==> occurrences(labels, l) > 0,
            forall|l: i64| #[trigger]
                counter@.contains_key(l) ==> counter@[l] == occurrences(labels, l),
            votes == occurrences(labels, label),
            votes > 0,
            forall|t: int|
                0 <= t < j ==> #[trigger] occurrences(labels, labels[t]) < votes || (occurrences(
                    labels,
                    labels[t],
                ) == votes && label <= labels[t]),
        decreases closest@.len() - j,
    {
        let l = closest[j].label;
        proof {
            lemma_present_occurs(labels, j as int);
        }
        let n: usize = match counter.get(&l) {
            Some(n) => *n,
            None => 0,
        };
        if n > votes || (n == votes && l < label) {
            label = l;
            votes = n;
        }
        j = j + 1;
    }
    proof {
        assert forall|m: i64| #[trigger]
            occurrences(labels, m) < occurrences(labels, label) || (occurrences(labels, m)
                == occurrences(labels, label) && label <= m) by {
            if occurrences(labels, m) > 0 {
                let t = lemma_occurring_present(labels, m);
                assert(occurrences(labels, labels[t]) < votes || (occurrences(labels, labels[t])
                    == votes && label <= labels[t]));
            }
        }
        assert(is_majority(labels, label));
        lemma_majority_unique(labels, label, majority(labels));
    }
    label
}

/// Among the first `j` labels there is one that beats or ties every other
/// of them, and is the lowest of those it ties with.
proof fn lemma_leader(labels: Seq<i64>, j: nat) -> (l: i64)
    requires
        1 <= j <= labels.len(),
    ensures
        occurrences(labels, l) > 0,
        forall|t: int|
            0 <= t < j ==> #[trigger] occurrences(labels, labels[t]) < occurrences(labels, l) || (
            occurrences(labels, labels[t]) == occurrences(labels, l) && l <= labels[t]),
    decreases j,
{
    if j == 1 {
        lemma_present_occurs(labels, 0);
        labels[0]
    } else {
        let before = lemma_leader(labels, (j - 1) as nat);
        let m = labels[j - 1];
        lemma_present_occurs(labels, j - 1);
        if occurrences(labels, m) > occurrences(labels, before) || (occurrences(labels, m)
            == occurrences(labels, before) && m < before) {
            m
        } else {
            before
        }
    }
}

/// Every non-empty vote has a winner.
pub proof fn majority_exists(labels: Seq<i64>)
    requires
        labels.len() > 0,
    ensures
        is_majority(labels, majority(labels)),
{
    let l = lemma_leader(labels, labels.len());
    assert forall|m: i64| #[trigger]
        occurrences(labels, m) < occurrences(labels, l) || (occurrences(labels, m) == occurrences(
            labels,
            l,
        ) && l <= m) by {
        if occurrences(labels, m) > 0 {
            let t = lemma_occurring_present(labels, m);
            assert(occurrences(labels, labels[t]) < occurrences(labels, l) || (occurrences(
                labels,
                labels[t],
            ) == occurrences(labels, l) && l <= labels[t]));
        }
    }
    assert(is_majority(labels, l));
}

/// A single voter wins its own vote.
pub proof fn majority_of_one(l: i64)
    ensures
        majority(seq![l]) == l,
{
    let labels = seq![l];
    majority_exists(labels);
    let t = lemma_occurring_present(labels, majority(labels));
}

} // verus!
