//! The bounded list of nearest candidates kept while scanning a training set.
//!
//! The list fills up to `k` entries; after that a newcomer gets in only by
//! being strictly nearer than the farthest entry, whose place it takes. When
//! several entries share the farthest distance, the one at the lowest
//! position of the list gives way.

use vstd::prelude::*;

verus! {

/// A training point as seen from a query point: how far away it is, and the
/// label it votes for. Distances only need to be ordered as the true
/// distances are.
#[derive(Clone, Copy, Debug, PartialEq, Eq, Structural)]
pub struct Neighbor {
    pub distance: u128,
    pub label: i64,
}

/// Position `p` holds the farthest entry of `c`, and no earlier position
/// holds one as far.
pub open spec fn is_first_farthest(c: Seq<Neighbor>, p: int) -> bool {
    &&& 0 <= p < c.len()
    &&& forall|j: int| 0 <= j < c.len() ==> (#[trigger] c[j]).distance <= c[p].distance
    &&& forall|j: int| 0 <= j < p ==> (#[trigger] c[j]).distance < c[p].distance
}

/// The lowest position that holds the farthest entry of a non-empty list.
pub open spec fn first_farthest(c: Seq<Neighbor>) -> int {
    choose|p: int| is_first_farthest(c, p)
}

/// The greatest distance in a non-empty list.
pub open spec fn max_distance(c: Seq<Neighbor>) -> u128 {
    c[first_farthest(c)].distance
}

/// The candidate list after `x` has been offered to the list `c` of a scan
/// that keeps `k` entries.
pub open spec fn offered(c: Seq<Neighbor>, x: Neighbor, k: nat) -> Seq<Neighbor> {
    if c.len() < k {
        c.push(x)
    } else if c.len() > 0 && x.distance < max_distance(c) {
        c.update(first_farthest(c), x)
    } else {
        c
    }
}

/// The candidate list after every entry of `all` has been offered in order.
pub open spec fn nearest(all: Seq<Neighbor>, k: nat) -> Seq<Neighbor>
    decreases all.len(),
{
    if all.len() == 0 {
        Seq::empty()
    } else {
        offered(nearest(all.drop_last(), k), all.last(), k)
    }
}

/// The labels of a candidate list, in list order.
pub open spec fn labels_of(c: Seq<Neighbor>) -> Seq<i64> {
    Seq::new(c.len(), |i: int| c[i].label)
}

/// At most one position is the first farthest.
pub proof fn lemma_first_farthest_unique(c: Seq<Neighbor>, p: int, q: int)
    requires
        is_first_farthest(c, p),
        is_first_farthest(c, q),
    ensures
        p == q,
{
    if p < q {
        assert(c[p].distance < c[q].distance);
        assert(c[q].distance <= c[p].distance);
    } else if q < p {
        assert(c[q].distance < c[p].distance);
        assert(c[p].distance <= c[q].distance);
    }
}

/// Every non-empty list has a first farthest position.
pub proof fn lemma_first_farthest_exists(c: Seq<Neighbor>)
    requires
        c.len() > 0,
    ensures
        is_first_farthest(c, first_farthest(c)),
    decreases c.len(),
{
    if c.len() == 1 {
        assert(is_first_farthest(c, 0));
    } else {
        let front = c.drop_last();
        lemma_first_farthest_exists(front);
        let p = first_farthest(front);
        assert(forall|j: int| 0 <= j < front.len() ==> front[j] == c[j]);
        if c.last().distance > c[p].distance {
            assert(is_first_farthest(c, c.len() - 1));
        } else {
            assert(is_first_farthest(c, p));
        }
    }
}

/// The greatest distance among the candidates.
pub fn closest_max(closest: &Vec<Neighbor>) -> (max: u128)
    requires
        closest@.len() > 0,
    ensures
        max == max_distance(closest@),
        exists|j: int| 0 <= j < closest@.len() && closest@[j].distance == max,
        forall|j: int| 0 <= j < closest@.len() ==> closest@[j].distance <= max,
{
    let mut max: u128 = closest[0].distance;
    let mut i: usize = 1;
    while i < closest.len()
        invariant
            1 <= i <= closest@.len(),
            exists|j: int| 0 <= j < i && closest@[j].distance == max,
            forall|j: int| 0 <= j < i ==> closest@[j].distance <= max,
        decreases closest@.len() - i,
    {
        if closest[i].distance > max {
            max = closest[i].distance;
        }
        i = i + 1;
    }
    proof {
        lemma_first_farthest_exists(closest@);
        let p = first_farthest(closest@);
        let j = choose|j: int| 0 <= j < closest@.len() && closest@[j].distance == max;
        assert(closest@[j].distance <= closest@[p].distance);
    }
    max
}

/// The lowest position that holds the farthest candidate.
pub fn argmax(list: &Vec<Neighbor>) -> (position: usize)
    requires
        list@.len() > 0,
    ensures
        is_first_farthest(list@, position as int),
        position == first_farthest(list@),
{
    let mut position: usize = 0;
    let mut i: usize = 1;
    while i < list.len()
        invariant
            1 <= i <= list@.len(),
            is_first_farthest(list@.take(i as int), position as int),
        decreases list@.len() - i,
    {
        let ghost seen = list@.take(i as int);
        let ghost grown = list@.take(i + 1);
        proof {
            assert(forall|j: int| 0 <= j < i ==> seen[j] == grown[j]);
        }
        if list[i].distance > list[position].distance {
            position = i;
        }
        i = i + 1;
        assert(is_first_farthest(grown, position as int));
    }
    proof {
        assert(list@.take(i as int) =~= list@);
        lemma_first_farthest_exists(list@);
        lemma_first_farthest_unique(list@, position as int, first_farthest(list@));
    }
    position
}

/// Offers `x` to the candidates of a scan that keeps `k` entries.
///
/// A list that is not yet full takes `x` at its end. A full list takes `x`
/// only if it is strictly nearer than the farthest candidate, in the place
/// of the first candidate that far away.
pub fn offer(closest: &mut Vec<Neighbor>, k: usize, x: Neighbor)
    ensures
        final(closest)@ == offered(old(closest)@, x, k as nat),
{
    if closest.len() < k {
        closest.push(x);
    } else if closest.len() > 0 && x.distance < closest_max(closest) {
        let position = argmax(closest);
        closest.set(position, x);
    }
}

/// The scan keeps `k` candidates, or all of them when there are fewer.
pub proof fn nearest_keeps_k(all: Seq<Neighbor>, k: nat)
    ensures
        nearest(all, k).len() == if all.len() < k { all.len() } else { k },
    decreases all.len(),
{
    if all.len() > 0 {
        nearest_keeps_k(all.drop_last(), k);
        let c = nearest(all.drop_last(), k);
        if c.len() >= k && c.len() > 0 {
            lemma_first_farthest_exists(c);
        }
    }
}

/// A scan that keeps at least as many candidates as it is offered keeps
/// every one of them, in the order offered.
pub proof fn nearest_keeps_all(all: Seq<Neighbor>, k: nat)
    requires
        all.len() <= k,
    ensures
        nearest(all, k) == all,
    decreases all.len(),
{
    if all.len() > 0 {
        nearest_keeps_all(all.drop_last(), k);
        assert(all.drop_last().push(all.last()) =~= all);
    }
}

/// Position `p` holds the nearest entry of `all`, and no earlier position
/// holds one as near.
pub open spec fn is_first_nearest(all: Seq<Neighbor>, p: int) -> bool {
    &&& 0 <= p < all.len()
    &&& forall|j: int| 0 <= j < all.len() ==> all[p].distance <= (#[trigger] all[j]).distance
    &&& forall|j: int| 0 <= j < p ==> all[p].distance < (#[trigger] all[j]).distance
}

/// A scan that keeps one candidate ends with the nearest entry; with the
/// first of them, where several are equally near.
pub proof fn nearest_of_one(all: Seq<Neighbor>, p: int)
    requires
        is_first_nearest(all, p),
    ensures
        nearest(all, 1) == seq![all[p]],
    decreases all.len(),
{
    let front = all.drop_last();
    let last = all.len() - 1;
    nearest_keeps_k(front, 1);
    if front.len() == 0 {
        assert(nearest(front, 1).push(all.last()) =~= seq![all[p]]);
    } else {
        let c = nearest(front, 1);
        lemma_first_farthest_exists(c);
        assert(first_farthest(c) == 0);
        if p == last {
            // the newcomer is strictly nearer than all before it
            let q = first_nearest_exists(front);
            nearest_of_one(front, q);
            assert(front[q] == all[q]);
            assert(c.update(0, all.last()) =~= seq![all[p]]);
        } else {
            assert(forall|j: int| 0 <= j < front.len() ==> front[j] == all[j]);
            assert(is_first_nearest(front, p));
            nearest_of_one(front, p);
            assert(all[p].distance <= all[last].distance);
        }
    }
}

/// Every non-empty sequence has a first nearest position.
pub proof fn first_nearest_exists(all: Seq<Neighbor>) -> (p: int)
    requires
        all.len() > 0,
    ensures
        is_first_nearest(all, p),
    decreases all.len(),
{
    if all.len() == 1 {
        0
    } else {
        let front = all.drop_last();
        let q = first_nearest_exists(front);
        assert(forall|j: int| 0 <= j < front.len() ==> front[j] == all[j]);
        if all.last().distance < all[q].distance {
            all.len() - 1
        } else {
            q
        }
    }
}

/// How many entries of `s` equal `x`.
pub open spec fn copies(s: Seq<Neighbor>, x: Neighbor) -> nat
    decreases s.len(),
{
    if s.len() == 0 {
        0
    } else {
        copies(s.drop_last(), x) + if s.last() == x { 1nat } else { 0nat }
    }
}

/// An entry that is counted stands somewhere in the sequence.
proof fn lemma_counted_present(s: Seq<Neighbor>, x: Neighbor) -> (i: int)
    requires
        copies(s, x) > 0,
    ensures
        0 <= i < s.len(),
        s[i] == x,
    decreases s.len(),
{
    if s.last() == x {
        s.len() - 1
    } else {
        lemma_counted_present(s.drop_last(), x)
    }
}

/// An entry that stands somewhere in the sequence is counted.
proof fn lemma_present_counted(s: Seq<Neighbor>, i: int)
    requires
        0 <= i < s.len(),
    ensures
        copies(s, s[i]) > 0,
    decreases s.len(),
{
    if i < s.len() - 1 {
        lemma_present_counted(s.drop_last(), i);
    }
}

/// Replacing one entry takes one copy of the old entry away and adds one
/// copy of the new.
proof fn lemma_copies_update(s: Seq<Neighbor>, p: int, x: Neighbor, y: Neighbor)
    requires
        0 <= p < s.len(),
    ensures
        copies(s.update(p, x), y) + (if s[p] == y { 1nat } else { 0nat }) == copies(s, y) + (if x
            == y { 1nat } else { 0nat }),
    decreases s.len(),
{
    if p == s.len() - 1 {
        assert(s.update(p, x).drop_last() =~= s.drop_last());
    } else {
        assert(s.update(p, x).drop_last() =~= s.drop_last().update(p, x));
        lemma_copies_update(s.drop_last(), p, x, y);
    }
}

/// The candidates a scan keeps are the nearest of what it was offered:
/// each is one of the entries offered, counted no more often than it was
/// offered, and no entry left out is nearer than an entry kept.
pub proof fn nearest_are_nearest(all: Seq<Neighbor>, k: nat)
    ensures
        forall|x: Neighbor| #[trigger] copies(nearest(all, k), x) <= copies(all, x),
        forall|c: Neighbor, x: Neighbor|
            #![trigger copies(nearest(all, k), c), copies(all, x)]
            copies(nearest(all, k), c) > 0 && copies(nearest(all, k), x) < copies(all, x)
                ==> c.distance <= x.distance,
    decreases all.len(),
{
    if all.len() > 0 {
        let front = all.drop_last();
        let newcomer = all.last();
        let kept = nearest(front, k);
        let next = nearest(all, k);
        nearest_are_nearest(front, k);
        nearest_keeps_k(front, k);
        if kept.len() < k {
            nearest_keeps_all(front, k);
            nearest_keeps_all(all, k);
        } else if kept.len() > 0 && newcomer.distance < max_distance(kept) {
            lemma_first_farthest_exists(kept);
            let p = first_farthest(kept);
            lemma_present_counted(kept, p);
            assert forall|x: Neighbor| #[trigger] copies(next, x) <= copies(all, x) by {
                lemma_copies_update(kept, p, newcomer, x);
            }
            assert forall|c: Neighbor, x: Neighbor|
                #![trigger copies(next, c), copies(all, x)]
                copies(next, c) > 0 && copies(next, x) < copies(all, x) implies c.distance
                <= x.distance by {
                lemma_copies_update(kept, p, newcomer, c);
                lemma_copies_update(kept, p, newcomer, x);
                if c != newcomer {
                    let i = lemma_counted_present(kept, c);
                }
                assert(c.distance <= kept[p].distance);
                if copies(kept, x) < copies(front, x) {
                    assert(copies(kept, kept[p]) > 0);
                } else {
                    assert(x == kept[p]);
                }
            }
        } else if kept.len() > 0 {
            lemma_first_farthest_exists(kept);
            let p = first_farthest(kept);
            lemma_present_counted(kept, p);
            assert forall|c: Neighbor, x: Neighbor|
                #![trigger copies(next, c), copies(all, x)]
                copies(next, c) > 0 && copies(next, x) < copies(all, x) implies c.distance
                <= x.distance by {
                let i = lemma_counted_present(kept, c);
                assert(c.distance <= kept[p].distance);
                if copies(kept, x) < copies(front, x) {
                    assert(copies(kept, kept[p]) > 0);
                } else {
                    assert(x == newcomer);
                }
            }
        }
    }
}

} // verus!
