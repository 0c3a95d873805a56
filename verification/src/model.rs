use crate::order::{ascending, canonical, lemma_canonical, leq};
use vstd::multiset::Multiset;
use vstd::prelude::*;
use vstd::relations::total_ordering;
use vstd::seq_lib::group_to_multiset_ensures;

verus! {

/// `i` is the cluster that takes `p`: no centroid is nearer to `p` than
/// centroid `i`, and every centroid before `i` is strictly farther.
pub open spec fn is_nearest<T>(
    distance: spec_fn(T, T) -> usize,
    centers: Seq<T>,
    p: T,
    i: int,
) -> bool {
    &&& 0 <= i < centers.len()
    &&& forall|j: int|
        0 <= j < centers.len() ==> distance(centers[i], p) <= distance(#[trigger] centers[j], p)
    &&& forall|j: int| 0 <= j < i ==> distance(centers[i], p) < distance(#[trigger] centers[j], p)
}

/// The index of the cluster that takes `p`.
pub open spec fn nearest<T>(distance: spec_fn(T, T) -> usize, centers: Seq<T>, p: T) -> int {
    choose|i: int| is_nearest(distance, centers, p, i)
}

/// The points that cluster `i` takes, in the order in which they were given.
pub open spec fn members<T>(
    distance: spec_fn(T, T) -> usize,
    centers: Seq<T>,
    points: Seq<T>,
    i: int,
) -> Seq<T> {
    points.filter(|p: T| nearest(distance, centers, p) == i)
}

/// One group for each centroid: the points nearest to it, in ascending order.
pub open spec fn assignment<T: PartialOrd>(
    distance: spec_fn(T, T) -> usize,
    centers: Seq<T>,
    points: Seq<T>,
) -> Seq<Seq<T>> {
    Seq::new(centers.len(), |i: int| canonical(members(distance, centers, points, i)))
}

/// `n` groups without a member.
pub open spec fn vacant<T>(n: nat) -> Seq<Seq<T>> {
    Seq::new(n, |i: int| Seq::<T>::empty())
}

/// All members of all groups, as a multiset.
pub open spec fn pooled<T>(groups: Seq<Seq<T>>) -> Multiset<T> {
    groups.flatten().to_multiset()
}

/// The inputs of one clustering run.
#[verifier::reject_recursive_types(T)]
pub struct Run<T> {
    /// The distance from a centroid (first) to a point (second).
    pub distance: spec_fn(T, T) -> usize,
    /// The centroid of a group.
    pub center: spec_fn(Seq<T>) -> T,
    /// The initial centroids; their number is the number of clusters.
    pub seeds: Seq<T>,
    /// The points to cluster.
    pub points: Seq<T>,
}

impl<T: PartialOrd> Run<T> {
    /// The centroids that round `k` assigns the points to.
    pub open spec fn centers_at(self, k: nat) -> Seq<T>
        decreases k,
    {
        if k == 0 {
            self.seeds
        } else {
            assignment(self.distance, self.centers_at((k - 1) as nat), self.points).map_values(
                self.center,
            )
        }
    }

    /// The groups that round `k` forms.
    pub open spec fn groups_at(self, k: nat) -> Seq<Seq<T>> {
        assignment(self.distance, self.centers_at(k), self.points)
    }

    /// The groups that round `k` compares its own with: those of the round
    /// before, and before the first round as many groups without a member.
    pub open spec fn groups_before(self, k: nat) -> Seq<Seq<T>> {
        if k == 0 {
            vacant(self.seeds.len())
        } else {
            self.groups_at((k - 1) as nat)
        }
    }

    /// Round `k` forms the groups that it was handed.
    pub open spec fn settled_at(self, k: nat) -> bool {
        self.groups_at(k) == self.groups_before(k)
    }

    /// The run gets as far as round `k`: no round before it forms the groups
    /// that it was handed.
    pub open spec fn reaches(self, k: nat) -> bool {
        forall|j: nat| j < k ==> !self.settled_at(j)
    }

    /// Round `k` is the first that forms the groups that it was handed.
    pub open spec fn settles_first_at(self, k: nat) -> bool {
        self.reaches(k) && self.settled_at(k)
    }

    /// `groups` is what the run ends with: the groups of the first round that
    /// forms the groups that it was handed.
    pub open spec fn ends_with(self, groups: Seq<Seq<T>>) -> bool {
        exists|k: nat| self.settles_first_at(k) && groups == self.groups_at(k)
    }
}

/// Among the first `k` centroids there is one that takes `p`.
proof fn lemma_nearest_among<T>(distance: spec_fn(T, T) -> usize, centers: Seq<T>, p: T, k: int)
    requires
        1 <= k <= centers.len(),
    ensures
        exists|i: int| is_nearest(distance, centers.take(k), p, i),
    decreases k,
{
    let now = centers.take(k);
    if k == 1 {
        assert(is_nearest(distance, now, p, 0));
    } else {
        lemma_nearest_among(distance, centers, p, k - 1);
        let before = centers.take(k - 1);
        let i = choose|i: int| is_nearest(distance, before, p, i);
        assert(forall|j: int| 0 <= j < k - 1 ==> before[j] == now[j]);
        if distance(now[k - 1], p) < distance(now[i], p) {
            assert forall|j: int| 0 <= j < k - 1 implies distance(now[k - 1], p) < distance(
                #[trigger] now[j],
                p,
            ) by {
                assert(distance(before[i], p) <= distance(before[j], p));
            }
            assert(is_nearest(distance, now, p, k - 1));
        } else {
            assert forall|j: int| 0 <= j < k implies distance(now[i], p) <= distance(
                #[trigger] now[j],
                p,
            ) by {
                if j < k - 1 {
                    assert(distance(before[i], p) <= distance(before[j], p));
                }
            }
            assert forall|j: int| 0 <= j < i implies distance(now[i], p) < distance(
                #[trigger] now[j],
                p,
            ) by {
                assert(distance(before[i], p) < distance(before[j], p));
            }
            assert(is_nearest(distance, now, p, i));
        }
    }
}

/// Where there is a centroid, exactly one cluster takes `p`.
pub proof fn lemma_nearest<T>(distance: spec_fn(T, T) -> usize, centers: Seq<T>, p: T)
    requires
        centers.len() > 0,
    ensures
        is_nearest(distance, centers, p, nearest(distance, centers, p)),
        forall|i: int| is_nearest(distance, centers, p, i) ==> i == nearest(distance, centers, p),
{
    lemma_nearest_among(distance, centers, p, centers.len() as int);
    assert(centers.take(centers.len() as int) == centers);
    let t = nearest(distance, centers, p);
    assert forall|i: int| is_nearest(distance, centers, p, i) implies i == t by {
        if i < t {
            assert(distance(centers[t], p) < distance(centers[i], p));
            assert(distance(centers[i], p) <= distance(centers[t], p));
        } else if t < i {
            assert(distance(centers[i], p) < distance(centers[t], p));
            assert(distance(centers[t], p) <= distance(centers[i], p));
        }
    }
}

/// No cluster takes a point from none.
pub proof fn lemma_members_of_none<T>(distance: spec_fn(T, T) -> usize, centers: Seq<T>, i: int)
    ensures
        members(distance, centers, Seq::<T>::empty(), i) == Seq::<T>::empty(),
{
    reveal(Seq::filter);
}

/// One more point goes to the end of the members of the cluster that takes
/// it, and leaves the other clusters as they were.
pub proof fn lemma_members_push<T>(
    distance: spec_fn(T, T) -> usize,
    centers: Seq<T>,
    points: Seq<T>,
    p: T,
    i: int,
)
    ensures
        members(distance, centers, points.push(p), i) == if nearest(distance, centers, p) == i {
            members(distance, centers, points, i).push(p)
        } else {
            members(distance, centers, points, i)
        },
{
    reveal(Seq::filter);
    assert(points.push(p).drop_last() == points);
}

/// The pool of no groups is empty, and the pool of some groups is the pool
/// of all but the last of them with the members of the last.
proof fn lemma_pooled_unfolds<T>(groups: Seq<Seq<T>>)
    ensures
        groups.len() == 0 ==> pooled(groups) == Multiset::<T>::empty(),
        groups.len() > 0 ==> pooled(groups) == pooled(groups.drop_last()).add(
            groups.last().to_multiset(),
        ),
{
    broadcast use group_to_multiset_ensures;

    groups.lemma_flatten_and_flatten_alt_are_equivalent();
    if groups.len() == 0 {
        assert(groups.flatten_alt().to_multiset() =~= Multiset::<T>::empty());
    } else {
        groups.drop_last().lemma_flatten_and_flatten_alt_are_equivalent();
        vstd::seq_lib::lemma_multiset_commutative(groups.drop_last().flatten_alt(), groups.last());
    }
}

/// Groups without a member pool to nothing.
pub proof fn lemma_pooled_vacant<T>(groups: Seq<Seq<T>>)
    requires
        forall|i: int| 0 <= i < groups.len() ==> (#[trigger] groups[i]).len() == 0,
    ensures
        pooled(groups) == Multiset::<T>::empty(),
    decreases groups.len(),
{
    broadcast use group_to_multiset_ensures;

    lemma_pooled_unfolds(groups);
    if groups.len() > 0 {
        lemma_pooled_vacant(groups.drop_last());
        assert(groups.last().len() == 0);
        assert(groups.last().to_multiset() =~= Multiset::<T>::empty());
        assert(pooled(groups) =~= Multiset::<T>::empty());
    }
}

/// Groups with the same members, index by index, pool to the same.
pub proof fn lemma_pooled_same<T>(a: Seq<Seq<T>>, b: Seq<Seq<T>>)
    requires
        a.len() == b.len(),
        forall|i: int| 0 <= i < a.len() ==> (#[trigger] a[i]).to_multiset() == b[i].to_multiset(),
    ensures
        pooled(a) == pooled(b),
    decreases a.len(),
{
    lemma_pooled_unfolds(a);
    lemma_pooled_unfolds(b);
    if a.len() > 0 {
        lemma_pooled_same(a.drop_last(), b.drop_last());
        assert(a.last().to_multiset() == b.last().to_multiset());
    }
}

/// Where one group gains the member `p`, the pool gains `p`.
pub proof fn lemma_pooled_gain<T>(a: Seq<Seq<T>>, b: Seq<Seq<T>>, t: int, p: T)
    requires
        a.len() == b.len(),
        0 <= t < a.len(),
        b[t].to_multiset() == a[t].to_multiset().insert(p),
        forall|i: int|
            0 <= i < a.len() && i != t ==> (#[trigger] a[i]).to_multiset() == b[i].to_multiset(),
    ensures
        pooled(b) == pooled(a).insert(p),
    decreases a.len(),
{
    lemma_pooled_unfolds(a);
    lemma_pooled_unfolds(b);
    if t == a.len() - 1 {
        lemma_pooled_same(a.drop_last(), b.drop_last());
        assert(pooled(b) =~= pooled(a).insert(p));
    } else {
        lemma_pooled_gain(a.drop_last(), b.drop_last(), t, p);
        assert(a.last().to_multiset() == b.last().to_multiset());
        assert(pooled(b) =~= pooled(a).insert(p));
    }
}

/// An assignment has one group for each centroid, and each group ascends.
pub proof fn lemma_assignment_shape<T: PartialOrd>(
    distance: spec_fn(T, T) -> usize,
    centers: Seq<T>,
    points: Seq<T>,
)
    requires
        total_ordering(leq::<T>()),
    ensures
        assignment(distance, centers, points).len() == centers.len(),
        forall|i: int|
            0 <= i < centers.len() ==> ascending(
                #[trigger] assignment(distance, centers, points)[i],
            ),
{
    assert forall|i: int| 0 <= i < centers.len() implies ascending(
        #[trigger] assignment(distance, centers, points)[i],
    ) by {
        lemma_canonical(members(distance, centers, points, i));
    }
}

/// An assignment neither drops nor repeats a point: its groups pool to the
/// points that were given.
pub proof fn lemma_assignment_complete<T: PartialOrd>(
    distance: spec_fn(T, T) -> usize,
    centers: Seq<T>,
    points: Seq<T>,
)
    requires
        total_ordering(leq::<T>()),
        centers.len() > 0,
    ensures
        pooled(assignment(distance, centers, points)) == points.to_multiset(),
    decreases points.len(),
{
    broadcast use group_to_multiset_ensures;

    let now = assignment(distance, centers, points);
    if points.len() == 0 {
        assert(points == Seq::<T>::empty());
        assert forall|i: int| 0 <= i < now.len() implies (#[trigger] now[i]).len() == 0 by {
            lemma_members_of_none(distance, centers, i);
            lemma_canonical(members(distance, centers, points, i));
        }
        lemma_pooled_vacant(now);
        assert(points.to_multiset() =~= Multiset::<T>::empty());
    } else {
        let rest = points.drop_last();
        let p = points.last();
        let before = assignment(distance, centers, rest);
        let t = nearest(distance, centers, p);
        assert(points == rest.push(p));
        lemma_assignment_complete(distance, centers, rest);
        lemma_nearest(distance, centers, p);
        assert forall|i: int| 0 <= i < centers.len() implies (#[trigger] now[i]).to_multiset() == (
        if i == t {
            before[i].to_multiset().insert(p)
        } else {
            before[i].to_multiset()
        }) by {
            lemma_members_push(distance, centers, rest, p, i);
            lemma_canonical(members(distance, centers, rest, i));
            lemma_canonical(members(distance, centers, points, i));
        }
        lemma_pooled_gain(before, now, t, p);
    }
}

} // verus!
