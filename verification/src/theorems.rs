use crate::model::{
    assignment, is_nearest, lemma_assignment_complete, lemma_assignment_shape, lemma_members_of_none,
    lemma_members_push, lemma_nearest, lemma_pooled_vacant, members, nearest, pooled, vacant, Run,
};
use crate::order::{ascending, canonical, lemma_canonical, lemma_canonical_unique, leq};
use vstd::prelude::*;
use vstd::relations::total_ordering;
use vstd::seq_lib::group_to_multiset_ensures;

verus! {

/// A run ends with one list of groups and no other: clustering the same
/// points twice, from the same centroids and with the same two functions,
/// gives the same groups twice.
pub proof fn lemma_end_is_determined<T: PartialOrd>(
    run: Run<T>,
    first: Seq<Seq<T>>,
    second: Seq<Seq<T>>,
)
    requires
        run.ends_with(first),
        run.ends_with(second),
    ensures
        first == second,
{
    let j = choose|k: nat| run.settles_first_at(k) && first == run.groups_at(k);
    let k = choose|k: nat| run.settles_first_at(k) && second == run.groups_at(k);
    if j < k {
        assert(!run.settled_at(j));
    } else if k < j {
        assert(!run.settled_at(k));
    }
}

/// Every round keeps the number of clusters, forms ascending groups, and
/// neither drops nor repeats a point.
pub proof fn lemma_every_round<T: PartialOrd>(run: Run<T>, k: nat)
    requires
        total_ordering(leq::<T>()),
        run.seeds.len() > 0,
    ensures
        run.centers_at(k).len() == run.seeds.len(),
        run.groups_at(k).len() == run.seeds.len(),
        forall|i: int| 0 <= i < run.seeds.len() ==> ascending(#[trigger] run.groups_at(k)[i]),
        pooled(run.groups_at(k)) == run.points.to_multiset(),
    decreases k,
{
    if k > 0 {
        lemma_every_round(run, (k - 1) as nat);
    }
    lemma_assignment_shape(run.distance, run.centers_at(k), run.points);
    lemma_assignment_complete(run.distance, run.centers_at(k), run.points);
}

/// What a run ends with has one group for each initial centroid, each group
/// ascending, and all of them together hold each point as often as it was
/// given.
pub proof fn lemma_end_is_partition<T: PartialOrd>(run: Run<T>, groups: Seq<Seq<T>>)
    requires
        total_ordering(leq::<T>()),
        run.seeds.len() > 0,
        run.ends_with(groups),
    ensures
        groups.len() == run.seeds.len(),
        forall|i: int| 0 <= i < groups.len() ==> ascending(#[trigger] groups[i]),
        pooled(groups) == run.points.to_multiset(),
{
    let k = choose|k: nat| run.settles_first_at(k) && groups == run.groups_at(k);
    lemma_every_round(run, k);
}

/// Of two centroids at the same distance from a point, the later one does
/// not get the point. Where the earlier one is the first of all and no
/// centroid is nearer, as where the two are the only ones, the first cluster
/// gets the point.
pub proof fn lemma_tie_goes_first<T>(
    distance: spec_fn(T, T) -> usize,
    centers: Seq<T>,
    p: T,
    i: int,
    j: int,
)
    requires
        0 <= i < j < centers.len(),
        distance(centers[i], p) == distance(centers[j], p),
    ensures
        nearest(distance, centers, p) != j,
        i == 0 && (forall|k: int|
            0 <= k < centers.len() ==> distance(centers[0], p) <= distance(
                #[trigger] centers[k],
                p,
            )) ==> nearest(distance, centers, p) == 0,
        centers.len() == 2 ==> nearest(distance, centers, p) == 0,
{
    lemma_nearest(distance, centers, p);
    if is_nearest(distance, centers, p, j) {
        assert(distance(centers[j], p) < distance(centers[i], p));
    }
    if i == 0 && (forall|k: int|
        0 <= k < centers.len() ==> distance(centers[0], p) <= distance(#[trigger] centers[k], p)) {
        assert(is_nearest(distance, centers, p, 0));
    }
}

/// With no point to cluster, the first round settles the run, and every
/// group is left without a member.
pub proof fn lemma_no_points<T: PartialOrd>(run: Run<T>)
    requires
        total_ordering(leq::<T>()),
        run.points.len() == 0,
    ensures
        run.settles_first_at(0),
        run.ends_with(vacant(run.seeds.len())),
{
    let groups = run.groups_at(0);
    assert(run.points == Seq::<T>::empty());
    assert forall|i: int| 0 <= i < groups.len() implies #[trigger] groups[i] == Seq::<T>::empty() by {
        lemma_members_of_none(run.distance, run.seeds, i);
        lemma_canonical(members(run.distance, run.seeds, run.points, i));
        assert(groups[i].len() == 0);
    }
    assert(groups =~= vacant(run.seeds.len()));
}

/// A single centroid takes every point.
pub proof fn lemma_all_to_one<T>(distance: spec_fn(T, T) -> usize, centers: Seq<T>, points: Seq<T>)
    requires
        centers.len() == 1,
    ensures
        members(distance, centers, points, 0) == points,
    decreases points.len(),
{
    if points.len() == 0 {
        assert(points == Seq::<T>::empty());
        lemma_members_of_none(distance, centers, 0);
    } else {
        let rest = points.drop_last();
        let p = points.last();
        assert(points == rest.push(p));
        lemma_all_to_one(distance, centers, rest);
        lemma_members_push(distance, centers, rest, p, 0);
        lemma_nearest(distance, centers, p);
        assert(is_nearest(distance, centers, p, 0));
    }
}

/// With a single initial centroid and at least one point, the second round
/// settles the run, and the one group holds all points in ascending order.
pub proof fn lemma_single_cluster<T: PartialOrd>(run: Run<T>)
    requires
        total_ordering(leq::<T>()),
        run.seeds.len() == 1,
        run.points.len() > 0,
    ensures
        run.settles_first_at(1),
        run.ends_with(seq![canonical(run.points)]),
{
    lemma_every_round(run, 0);
    lemma_every_round(run, 1);
    lemma_all_to_one(run.distance, run.centers_at(0), run.points);
    lemma_all_to_one(run.distance, run.centers_at(1), run.points);
    lemma_canonical(run.points);
    assert(run.groups_at(0) =~= seq![canonical(run.points)]);
    assert(run.groups_at(1) =~= seq![canonical(run.points)]);
    assert(run.groups_at(0)[0].len() != vacant::<T>(1)[0].len());
    assert(!run.settled_at(0));
    assert(run.settled_at(1));
    assert forall|j: nat| j < 1 implies !run.settled_at(j) by {
        assert(j == 0);
    }
}

/// What a run ends with is a fixed point of the engine: assigning the points
/// to the centroids of these groups forms these groups again.
pub proof fn lemma_end_is_fixed_point<T: PartialOrd>(run: Run<T>, groups: Seq<Seq<T>>)
    requires
        total_ordering(leq::<T>()),
        run.seeds.len() > 0,
        run.ends_with(groups),
    ensures
        assignment(run.distance, groups.map_values(run.center), run.points) == groups,
{
    let k = choose|k: nat| run.settles_first_at(k) && groups == run.groups_at(k);
    lemma_every_round(run, k);
    if k == 0 {
        let again = Run { seeds: groups.map_values(run.center), ..run };
        assert(run.points.len() == 0) by {
            lemma_pooled_vacant(vacant::<T>(run.seeds.len()));
            run.points.to_multiset_ensures();
        }
        lemma_no_points(again);
        assert(again.groups_at(0) =~= groups);
    }
}

/// Solving again from the centroids of what a run ended with ends with the
/// same groups.
pub proof fn lemma_solving_again<T: PartialOrd>(run: Run<T>, groups: Seq<Seq<T>>)
    requires
        total_ordering(leq::<T>()),
        run.seeds.len() > 0,
        run.ends_with(groups),
    ensures
        (Run { seeds: groups.map_values(run.center), ..run }).ends_with(groups),
{
    let again = Run { seeds: groups.map_values(run.center), ..run };
    lemma_end_is_partition(run, groups);
    lemma_end_is_fixed_point(run, groups);
    if run.points.len() == 0 {
        lemma_no_points(again);
        lemma_no_points(run);
        lemma_end_is_determined(run, groups, vacant::<T>(run.seeds.len()));
        assert(vacant::<T>(again.seeds.len()) =~= groups);
    } else {
        assert(again.groups_at(0) == groups);
        assert(!again.settled_at(0)) by {
            lemma_pooled_vacant(vacant::<T>(again.seeds.len()));
            run.points.to_multiset_ensures();
        }
        assert(again.centers_at(1) == groups.map_values(run.center));
        assert(again.settled_at(1));
        assert forall|j: nat| j < 1 implies !again.settled_at(j) by {
            assert(j == 0);
        }
        assert(again.settles_first_at(1));
    }
}

/// Among the members that a selection keeps, each value is as often as it was
/// in the sequence, if the selection keeps it, and not at all if it does not.
proof fn lemma_count_of_kept<T>(s: Seq<T>, keep: spec_fn(T) -> bool, x: T)
    ensures
        s.filter(keep).to_multiset().count(x) == if keep(x) {
            s.to_multiset().count(x)
        } else {
            0
        },
    decreases s.len(),
{
    broadcast use group_to_multiset_ensures;

    reveal(Seq::filter);
    if s.len() == 0 {
        assert(s.to_multiset().count(x) == 0) by {
            assert(s.to_multiset().len() == 0);
        }
    } else {
        lemma_count_of_kept(s.drop_last(), keep, x);
        assert(s == s.drop_last().push(s.last()));
    }
}

/// The order in which the points are given does not matter to the groups
/// that an assignment forms.
pub proof fn lemma_order_of_points<T: PartialOrd>(
    distance: spec_fn(T, T) -> usize,
    centers: Seq<T>,
    a: Seq<T>,
    b: Seq<T>,
)
    requires
        total_ordering(leq::<T>()),
        a.to_multiset() == b.to_multiset(),
    ensures
        assignment(distance, centers, a) == assignment(distance, centers, b),
{
    assert forall|i: int| 0 <= i < centers.len() implies canonical(
        members(distance, centers, a, i),
    ) == canonical(members(distance, centers, b, i)) by {
        let keep = |p: T| nearest(distance, centers, p) == i;
        assert forall|x: T|
            members(distance, centers, a, i).to_multiset().count(x) == members(
                distance,
                centers,
                b,
                i,
            ).to_multiset().count(x) by {
            lemma_count_of_kept(a, keep, x);
            lemma_count_of_kept(b, keep, x);
        }
        assert(members(distance, centers, a, i).to_multiset() =~= members(
            distance,
            centers,
            b,
            i,
        ).to_multiset());
        lemma_canonical(members(distance, centers, a, i));
        lemma_canonical_unique(
            members(distance, centers, b, i),
            canonical(members(distance, centers, a, i)),
        );
    }
    assert(assignment(distance, centers, a) =~= assignment(distance, centers, b));
}

/// Two runs that differ only in the order of their points form the same
/// groups in every round.
proof fn lemma_rounds_agree<T: PartialOrd>(run: Run<T>, other: Run<T>, k: nat)
    requires
        total_ordering(leq::<T>()),
        other.distance == run.distance,
        other.center == run.center,
        other.seeds == run.seeds,
        other.points.to_multiset() == run.points.to_multiset(),
    ensures
        other.centers_at(k) == run.centers_at(k),
        other.groups_at(k) == run.groups_at(k),
        other.groups_before(k) == run.groups_before(k),
    decreases k,
{
    if k > 0 {
        lemma_rounds_agree(run, other, (k - 1) as nat);
    }
    lemma_order_of_points(run.distance, run.centers_at(k), run.points, other.points);
}

/// The order in which the points are given does not matter to the groups
/// that a run ends with.
pub proof fn lemma_order_of_points_in_run<T: PartialOrd>(
    run: Run<T>,
    other: Run<T>,
    groups: Seq<Seq<T>>,
)
    requires
        total_ordering(leq::<T>()),
        other.distance == run.distance,
        other.center == run.center,
        other.seeds == run.seeds,
        other.points.to_multiset() == run.points.to_multiset(),
        run.ends_with(groups),
    ensures
        other.ends_with(groups),
{
    let k = choose|k: nat| run.settles_first_at(k) && groups == run.groups_at(k);
    lemma_rounds_agree(run, other, k);
    assert forall|j: nat| j < k implies !other.settled_at(j) by {
        lemma_rounds_agree(run, other, j);
        assert(!run.settled_at(j));
    }
    assert(other.settles_first_at(k));
}

} // verus!
