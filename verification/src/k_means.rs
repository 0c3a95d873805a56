use crate::model::{
    assignment, is_nearest, lemma_members_of_none, lemma_members_push, lemma_nearest,
    lemma_pooled_gain, lemma_pooled_same, lemma_pooled_vacant, members, nearest, pooled, vacant, Run,
};
use crate::order::{
    ascending, canonical, exact_clone, lawful, lemma_canonical, plain_equality, sort_group, total_order,
};
use crate::theorems::{
    lemma_end_is_determined, lemma_end_is_partition, lemma_no_points, lemma_single_cluster,
};
use vstd::prelude::*;
use vstd::seq_lib::group_to_multiset_ensures;
use vstd::std_specs::cmp::PartialEqSpec;

verus! {

/// `f` computes `distance`: what it returns for a centroid and a point is
/// the distance from the one to the other.
pub open spec fn computes_distance<T, F: Fn(&T, &T) -> usize>(
    f: F,
    distance: spec_fn(T, T) -> usize,
) -> bool {
    forall|c: T, p: T, d: usize| #[trigger] call_ensures(f, (&c, &p), d) ==> d == distance(c, p)
}

/// `g` computes `center`: what it returns for a group is the centroid of
/// the group.
pub open spec fn computes_center<T, G: Fn(&[T]) -> T>(g: G, center: spec_fn(Seq<T>) -> T) -> bool {
    forall|group: &[T], c: T| #[trigger] call_ensures(g, (group,), c) ==> c == center(group@)
}

/// `run` is a run of the engine with `f` and `g`, from the centroids `seeds`
/// and on `points`.
pub open spec fn fits<T, F: Fn(&T, &T) -> usize, G: Fn(&[T]) -> T>(
    f: F,
    g: G,
    seeds: Seq<T>,
    points: Seq<T>,
    run: Run<T>,
) -> bool {
    &&& computes_distance(f, run.distance)
    &&& computes_center(g, run.center)
    &&& run.seeds == seeds
    &&& run.points == points
}

/// `f` may be called on each of `centers` with each of `points`.
pub open spec fn distance_accepts<T, F: Fn(&T, &T) -> usize>(
    f: F,
    centers: Seq<T>,
    points: Seq<T>,
) -> bool {
    forall|i: int, j: int|
        0 <= i < centers.len() && 0 <= j < points.len() ==> call_requires(
            f,
            (&#[trigger] centers[i], &#[trigger] points[j]),
        )
}

/// `g` may return `c` for `group`.
pub open spec fn yields<T, G: Fn(&[T]) -> T>(g: G, group: Seq<T>, c: T) -> bool {
    exists|s: &[T]| s@ == group && #[trigger] call_ensures(g, (s,), c)
}

/// `g` may be called on `group`.
pub open spec fn center_accepts<T, G: Fn(&[T]) -> T>(g: G, group: Seq<T>) -> bool {
    forall|s: &[T]| s@ == group ==> #[trigger] call_requires(g, (s,))
}

/// `f` and `g` may be called on all that the first `rounds` rounds of `run`
/// hand to them: `f` on the centroids of each round that the run gets to,
/// with the points, and `g` on the groups of each round but the last of them.
/// The definition is opaque: `reveal` it to show it.
#[verifier::opaque]
pub open spec fn admitted_within<T: PartialOrd, F: Fn(&T, &T) -> usize, G: Fn(&[T]) -> T>(
    f: F,
    g: G,
    run: Run<T>,
    rounds: nat,
) -> bool {
    &&& forall|k: nat|
        k < rounds && run.reaches(k) ==> distance_accepts(
            f,
            #[trigger] run.centers_at(k),
            run.points,
        )
    &&& forall|k: nat, i: int|
        k + 1 < rounds && run.reaches(k + 1) && 0 <= i < run.seeds.len() ==> center_accepts(
            g,
            #[trigger] run.groups_at(k)[i],
        )
}

/// Two functions that may be called on anything may be called on all that
/// any number of rounds of any run hands to them.
pub proof fn lemma_total_functions_admitted<
    T: PartialOrd,
    F: Fn(&T, &T) -> usize,
    G: Fn(&[T]) -> T,
>(f: F, g: G, run: Run<T>, rounds: nat)
    requires
        forall|c: T, p: T| #[trigger] call_requires(f, (&c, &p)),
        forall|group: &[T]| #[trigger] call_requires(g, (group,)),
    ensures
        admitted_within(f, g, run, rounds),
{
    reveal(admitted_within);
}

/// What `admitted_within` says of one round that the run gets to.
proof fn lemma_admitted_round<T: PartialOrd, F: Fn(&T, &T) -> usize, G: Fn(&[T]) -> T>(
    f: F,
    g: G,
    run: Run<T>,
    rounds: nat,
    k: nat,
)
    requires
        admitted_within(f, g, run, rounds),
        k < rounds,
        run.reaches(k),
    ensures
        distance_accepts(f, run.centers_at(k), run.points),
        k + 1 < rounds && !run.settled_at(k) ==> forall|i: int|
            0 <= i < run.seeds.len() ==> center_accepts(g, #[trigger] run.groups_at(k)[i]),
{
    reveal(admitted_within);
    if k + 1 < rounds && !run.settled_at(k) {
        assert(run.reaches(k + 1));
    }
}

/// `run` is a run of the engine with `f` and `g` that settles at round `k`,
/// and `f` and `g` may be called on all that its rounds up to `k` hand to
/// them.
pub open spec fn runs_to<T: PartialOrd, F: Fn(&T, &T) -> usize, G: Fn(&[T]) -> T>(
    f: F,
    g: G,
    seeds: Seq<T>,
    points: Seq<T>,
    run: Run<T>,
    k: nat,
) -> bool {
    &&& fits(f, g, seeds, points, run)
    &&& run.settled_at(k)
    &&& admitted_within(f, g, run, k + 1)
}

/// Round `k` of `run` starts with the centroids `centers` and is handed the
/// groups `previous`.
spec fn at_round<T: PartialOrd>(
    run: Run<T>,
    centers: Seq<T>,
    previous: Seq<Seq<T>>,
    k: nat,
) -> bool {
    &&& run.reaches(k)
    &&& centers == run.centers_at(k)
    &&& previous == run.groups_before(k)
}

/// The members of each group, group by group.
pub open spec fn contents<T>(groups: Vec<Vec<T>>) -> Seq<Seq<T>> {
    groups@.map_values(|group: Vec<T>| group@)
}

/// Finds the cluster that takes `p`: the first of the centroids at the
/// least distance from it.
pub fn nearest_center<T, F>(calc_distance: &F, centers: &[T], p: &T) -> (i: usize) where
    F: Fn(&T, &T) -> usize,

    requires
        centers@.len() > 0,
        forall|k: int|
            0 <= k < centers@.len() ==> call_requires(*calc_distance, (&#[trigger] centers@[k], p)),
    ensures
        i < centers@.len(),
        forall|distance: spec_fn(T, T) -> usize| #[trigger]
            computes_distance(*calc_distance, distance) ==> is_nearest(
                distance,
                centers@,
                *p,
                i as int,
            ) && i == nearest(distance, centers@, *p),
{
    let mut best: usize = 0;
    let mut least: usize = calc_distance(&centers[0], p);
    let ghost mut seen: Seq<usize> = seq![least];
    let mut j: usize = 1;
    while j < centers.len()
        invariant
            1 <= j <= centers@.len(),
            forall|k: int|
                0 <= k < centers@.len() ==> call_requires(
                    *calc_distance,
                    (&#[trigger] centers@[k], p),
                ),
            best < j,
            seen.len() == j,
            forall|k: int|
                0 <= k < j ==> call_ensures(*calc_distance, (&centers@[k], p), #[trigger] seen[k]),
            least == seen[best as int],
            forall|k: int| 0 <= k < j ==> least <= #[trigger] seen[k],
            forall|k: int| 0 <= k < best ==> least < #[trigger] seen[k],
        decreases centers@.len() - j,
    {
        let d = calc_distance(&centers[j], p);
        proof {
            seen = seen.push(d);
        }
        if d < least {
            best = j;
            least = d;
        }
        j += 1;
    }
    proof {
        assert forall|distance: spec_fn(T, T) -> usize| #[trigger]
            computes_distance(*calc_distance, distance) implies is_nearest(
            distance,
            centers@,
            *p,
            best as int,
        ) && best == nearest(distance, centers@, *p) by {
            assert forall|k: int| 0 <= k < centers@.len() implies seen[k] == distance(
                #[trigger] centers@[k],
                *p,
            ) by {
                assert(call_ensures(*calc_distance, (&centers@[k], p), seen[k]));
            }
            assert(is_nearest(distance, centers@, *p, best as int));
            lemma_nearest(distance, centers@, *p);
        }
    }
    best
}

/// Makes `n` groups without a member.
fn empty_groups<T>(n: usize) -> (groups: Vec<Vec<T>>)
    ensures
        contents(groups) == vacant::<T>(n as nat),
{
    let mut groups: Vec<Vec<T>> = Vec::new();
    let mut i: usize = 0;
    while i < n
        invariant
            i <= n,
            groups.len() == i,
            forall|k: int| 0 <= k < i ==> (#[trigger] groups[k])@ == Seq::<T>::empty(),
        decreases n - i,
    {
        groups.push(Vec::new());
        i += 1;
    }
    assert(contents(groups) =~= vacant::<T>(n as nat));
    groups
}

/// The assignment step: hands each of `lst` to the cluster whose centroid is
/// nearest to it, the first of them where several are, and puts each group
/// in ascending order.
pub fn assign<T, F>(calc_distance: &F, centers: &[T], lst: &[T]) -> (groups: Vec<Vec<T>>) where
    T: Clone + Ord,
    F: Fn(&T, &T) -> usize,

    requires
        centers@.len() > 0,
        total_order::<T>(),
        exact_clone::<T>(),
        distance_accepts(*calc_distance, centers@, lst@),
    ensures
        forall|distance: spec_fn(T, T) -> usize| #[trigger]
            computes_distance(*calc_distance, distance) ==> contents(groups) == assignment(
                distance,
                centers@,
                lst@,
            ),
        groups.len() == centers@.len(),
        forall|i: int| 0 <= i < groups.len() ==> ascending(#[trigger] groups[i]@),
        pooled(contents(groups)) == lst@.to_multiset(),
{
    let n: usize = centers.len();
    let mut groups: Vec<Vec<T>> = empty_groups(n);
    proof {
        broadcast use group_to_multiset_ensures;

        assert(lst@.take(0) == Seq::<T>::empty());
        lemma_pooled_vacant(contents(groups));
        assert(lst@.take(0).to_multiset() =~= pooled(contents(groups)));
        assert forall|distance: spec_fn(T, T) -> usize, k: int| 0 <= k < n implies contents(
            groups,
        )[k] == #[trigger] members(distance, centers@, lst@.take(0), k) by {
            lemma_members_of_none(distance, centers@, k);
        }
    }
    let mut j: usize = 0;
    while j < lst.len()
        invariant
            j <= lst@.len(),
            n == centers@.len(),
            n > 0,
            exact_clone::<T>(),
            distance_accepts(*calc_distance, centers@, lst@),
            groups.len() == n,
            pooled(contents(groups)) == lst@.take(j as int).to_multiset(),
            forall|distance: spec_fn(T, T) -> usize, k: int|
                computes_distance(*calc_distance, distance) && 0 <= k < n ==> contents(groups)[k]
                    == #[trigger] members(distance, centers@, lst@.take(j as int), k),
        decreases lst@.len() - j,
    {
        let ghost before = groups;
        let p = &lst[j];
        let t = nearest_center(calc_distance, centers, p);
        let x = p.clone();
        assert(cloned(*p, x));
        groups[t].push(x);
        proof {
            broadcast use group_to_multiset_ensures;

            assert(lst@.take(j + 1) == lst@.take(j as int).push(*p));
            assert(contents(groups)[t as int] == contents(before)[t as int].push(*p));
            assert forall|k: int| 0 <= k < n && k != t implies (#[trigger] contents(
                before,
            )[k]).to_multiset() == contents(groups)[k].to_multiset() by {
                assert(groups[k] == before[k]);
            }
            lemma_pooled_gain(contents(before), contents(groups), t as int, *p);
            assert forall|distance: spec_fn(T, T) -> usize, k: int|
                computes_distance(*calc_distance, distance) && 0 <= k < n implies contents(
                groups,
            )[k] == #[trigger] members(distance, centers@, lst@.take(j + 1), k) by {
                lemma_members_push(distance, centers@, lst@.take(j as int), *p, k);
                assert(contents(before)[k] == members(distance, centers@, lst@.take(j as int), k));
                if k != t {
                    assert(groups[k] == before[k]);
                }
            }
        }
        j += 1;
    }
    assert(lst@.take(lst@.len() as int) == lst@);
    let ghost unsorted = groups;
    let mut i: usize = 0;
    while i < n
        invariant
            i <= n,
            total_order::<T>(),
            groups.len() == n,
            unsorted.len() == n,
            forall|k: int| 0 <= k < i ==> (#[trigger] groups[k])@ == canonical(unsorted[k]@),
            forall|k: int| i <= k < n ==> #[trigger] groups[k] == unsorted[k],
        decreases n - i,
    {
        sort_group(&mut groups[i]);
        i += 1;
    }
    proof {
        assert forall|k: int| 0 <= k < n implies ascending(#[trigger] groups[k]@) by {
            lemma_canonical(unsorted[k]@);
        }
        assert forall|k: int| 0 <= k < n implies (#[trigger] contents(
            unsorted,
        )[k]).to_multiset() == contents(groups)[k].to_multiset() by {
            lemma_canonical(unsorted[k]@);
        }
        lemma_pooled_same(contents(unsorted), contents(groups));
        assert forall|distance: spec_fn(T, T) -> usize| #[trigger]
            computes_distance(*calc_distance, distance) implies contents(groups) == assignment(
            distance,
            centers@,
            lst@,
        ) by {
            assert forall|k: int| 0 <= k < n implies contents(groups)[k] == canonical(
                members(distance, centers@, lst@, k),
            ) by {
                assert(contents(unsorted)[k] == members(distance, centers@, lst@, k));
            }
            assert(contents(groups) =~= assignment(distance, centers@, lst@));
        }
    }
    groups
}

/// The group-equality check: whether two lists of groups hold the same
/// members, group by group and place by place.
pub fn same_groups<T: PartialEq>(a: &Vec<Vec<T>>, b: &Vec<Vec<T>>) -> (same: bool)
    requires
        plain_equality::<T>(),
    ensures
        same == (contents(*a) == contents(*b)),
{
    let same = a == b;
    proof {
        reveal(vstd::laws_eq::obeys_concrete_eq);
        if same {
            assert forall|i: int| 0 <= i < a.len() implies a[i]@ == b[i]@ by {
                assert(a[i].eq_spec(&b[i]));
                assert(a[i]@ =~= b[i]@);
            }
            assert(contents(*a) =~= contents(*b));
        } else {
            if contents(*a) == contents(*b) {
                assert(contents(*a).len() == a.len() && contents(*b).len() == b.len());
                assert forall|i: int| 0 <= i < a.len() implies (#[trigger] a[i]).eq_spec(
                    &b[i],
                ) by {
                    assert(contents(*a)[i] == contents(*b)[i]);
                }
                assert(false);
            }
        }
    }
    same
}

/// The centroid recomputation: one centroid for each group, from its
/// members.
pub fn recenter<T, G>(calc_center: &G, groups: &Vec<Vec<T>>) -> (centers: Vec<T>) where
    G: Fn(&[T]) -> T,

    requires
        forall|i: int| 0 <= i < groups.len() ==> center_accepts(*calc_center, #[trigger] groups[i]@),
    ensures
        centers.len() == groups.len(),
        forall|i: int|
            0 <= i < groups.len() ==> yields(*calc_center, groups[i]@, #[trigger] centers[i]),
        forall|center: spec_fn(Seq<T>) -> T| #[trigger]
            computes_center(*calc_center, center) ==> centers@ == contents(*groups).map_values(
                center,
            ),
{
    let mut centers: Vec<T> = Vec::new();
    let mut i: usize = 0;
    while i < groups.len()
        invariant
            i <= groups.len(),
            forall|i: int|
                0 <= i < groups.len() ==> center_accepts(*calc_center, #[trigger] groups[i]@),
            centers.len() == i,
            forall|k: int| 0 <= k < i ==> yields(*calc_center, groups[k]@, #[trigger] centers[k]),
        decreases groups.len() - i,
    {
        let group = groups[i].as_slice();
        assert(center_accepts(*calc_center, groups[i as int]@));
        let c = calc_center(group);
        assert(yields(*calc_center, groups[i as int]@, c));
        centers.push(c);
        i += 1;
    }
    proof {
        assert forall|center: spec_fn(Seq<T>) -> T| #[trigger]
            computes_center(*calc_center, center) implies centers@ == contents(*groups).map_values(
            center,
        ) by {
            assert forall|k: int| 0 <= k < centers.len() implies centers[k] == center(
                groups[k]@,
            ) by {
                assert(yields(*calc_center, groups[k]@, centers[k]));
            }
            assert(centers@ =~= contents(*groups).map_values(center));
        }
    }
    centers
}

/// What holds of the groups that a run ends with, whatever the run.
proof fn lemma_end<T: Ord + Clone>(run: Run<T>, groups: Seq<Seq<T>>)
    requires
        lawful::<T>(),
        run.seeds.len() > 0,
        run.ends_with(groups),
    ensures
        groups.len() == run.seeds.len(),
        forall|i: int| 0 <= i < groups.len() ==> ascending(#[trigger] groups[i]),
        pooled(groups) == run.points.to_multiset(),
        run.points.len() == 0 ==> groups == vacant::<T>(run.seeds.len()),
        run.seeds.len() == 1 ==> groups == seq![canonical(run.points)],
{
    lemma_end_is_partition(run, groups);
    if run.points.len() == 0 {
        lemma_no_points(run);
        lemma_end_is_determined(run, groups, vacant::<T>(run.seeds.len()));
        if run.seeds.len() == 1 {
            lemma_canonical(run.points);
            assert(canonical(run.points) =~= Seq::<T>::empty());
            assert(groups[0] == Seq::<T>::empty());
            assert(groups =~= seq![canonical(run.points)]);
        }
    } else if run.seeds.len() == 1 {
        lemma_single_cluster(run);
        lemma_end_is_determined(run, groups, seq![canonical(run.points)]);
    }
}

/// Clusters `lst` round the centroids that start as `init_center`. Each
/// round assigns the points to the centroids of the round and, unless it
/// formed the groups that it was handed, replaces each centroid by the
/// centroid of its group. The groups of the first round that formed the
/// groups that it was handed are returned.
///
/// Nothing bounds the number of rounds, so the run must be one that settles;
/// `solve_within` asks for no such thing.
pub fn solve<T, F, G>(calc_distance: F, calc_center: G, init_center: Vec<T>, lst: &[T]) -> (groups:
    Vec<Vec<T>>) where T: Sized + Clone + Eq + Ord, F: Fn(&T, &T) -> usize, G: Fn(&[T]) -> T
    requires
        init_center.len() > 0,
        lawful::<T>(),
        exists|run: Run<T>, k: nat| runs_to(calc_distance, calc_center, init_center@, lst@, run, k),
    ensures
        forall|run: Run<T>| #[trigger]
            fits(calc_distance, calc_center, init_center@, lst@, run) ==> run.ends_with(
                contents(groups),
            ),
        groups.len() == init_center.len(),
        forall|i: int| 0 <= i < groups.len() ==> ascending(#[trigger] groups[i]@),
        pooled(contents(groups)) == lst@.to_multiset(),
        lst@.len() == 0 ==> contents(groups) == vacant::<T>(init_center@.len()),
        init_center.len() == 1 ==> contents(groups) == seq![canonical(lst@)],
{
    let ghost seeds = init_center@;
    let ghost (model, last) = choose|run: Run<T>, k: nat|
        runs_to(calc_distance, calc_center, seeds, lst@, run, k);
    let n: usize = init_center.len();
    let mut previous: Vec<Vec<T>> = empty_groups(n);
    let mut centers: Vec<T> = init_center;
    let ghost mut round: nat = 0;
    assert forall|run: Run<T>| #[trigger]
        fits(calc_distance, calc_center, seeds, lst@, run) implies at_round(
        run,
        centers@,
        contents(previous),
        round,
    ) by {}
    loop
        invariant
            seeds == init_center@,
            n == seeds.len(),
            n > 0,
            lawful::<T>(),
            runs_to(calc_distance, calc_center, seeds, lst@, model, last),
            round <= last,
            centers.len() == n,
            forall|run: Run<T>| #[trigger]
                fits(calc_distance, calc_center, seeds, lst@, run) ==> at_round(
                    run,
                    centers@,
                    contents(previous),
                    round,
                ),
        decreases last - round,
    {
        proof {
            assert(at_round(model, centers@, contents(previous), round));
            lemma_admitted_round(calc_distance, calc_center, model, last + 1, round);
        }
        let groups = assign(&calc_distance, centers.as_slice(), lst);
        if same_groups(&previous, &groups) {
            proof {
                assert forall|run: Run<T>| #[trigger]
                    fits(calc_distance, calc_center, seeds, lst@, run) implies run.ends_with(
                    contents(groups),
                ) by {
                    assert(at_round(run, centers@, contents(previous), round));
                    assert(run.settles_first_at(round));
                }
                lemma_end(model, contents(groups));
            }
            return groups;
        }
        proof {
            assert(!model.settled_at(round) && model.settled_at(last));
            assert forall|i: int| 0 <= i < groups.len() implies center_accepts(
                calc_center,
                #[trigger] groups[i]@,
            ) by {
                assert(groups[i]@ == model.groups_at(round)[i]);
            }
        }
        let next = recenter(&calc_center, &groups);
        proof {
            assert forall|run: Run<T>| #[trigger]
                fits(calc_distance, calc_center, seeds, lst@, run) implies at_round(
                run,
                next@,
                contents(groups),
                round + 1,
            ) by {
                assert(at_round(run, centers@, contents(previous), round));
                assert(!run.settled_at(round));
            }
            round = round + 1;
        }
        centers = next;
        previous = groups;
    }
}

/// `solve` with a bound on the number of rounds: the groups of the first
/// round that formed the groups that it was handed, if that is one of the
/// first `rounds` rounds, and nothing if it is not.
pub fn solve_within<T, F, G>(
    calc_distance: F,
    calc_center: G,
    init_center: Vec<T>,
    lst: &[T],
    rounds: usize,
) -> (found: Option<Vec<Vec<T>>>) where
    T: Sized + Clone + Eq + Ord,
    F: Fn(&T, &T) -> usize,
    G: Fn(&[T]) -> T,

    requires
        init_center.len() > 0,
        lawful::<T>(),
        exists|run: Run<T>| #[trigger]
            fits(calc_distance, calc_center, init_center@, lst@, run) && admitted_within(
                calc_distance,
                calc_center,
                run,
                rounds as nat,
            ),
    ensures
        forall|run: Run<T>| #[trigger]
            fits(calc_distance, calc_center, init_center@, lst@, run) ==> (found is Some
                <==> exists|k: nat| k < rounds && run.settled_at(k)),
        found matches Some(groups) ==> {
            &&& forall|run: Run<T>| #[trigger]
                fits(calc_distance, calc_center, init_center@, lst@, run) ==> run.ends_with(
                    contents(groups),
                )
            &&& groups.len() == init_center.len()
            &&& forall|i: int| 0 <= i < groups.len() ==> ascending(#[trigger] groups[i]@)
            &&& pooled(contents(groups)) == lst@.to_multiset()
            &&& lst@.len() == 0 ==> contents(groups) == vacant::<T>(init_center@.len())
            &&& init_center.len() == 1 ==> contents(groups) == seq![canonical(lst@)]
        },
{
    let ghost seeds = init_center@;
    let ghost model = choose|run: Run<T>| #[trigger]
        fits(calc_distance, calc_center, seeds, lst@, run) && admitted_within(
            calc_distance,
            calc_center,
            run,
            rounds as nat,
        );
    let n: usize = init_center.len();
    let mut previous: Vec<Vec<T>> = empty_groups(n);
    let mut centers: Vec<T> = init_center;
    let mut left: usize = rounds;
    let ghost mut round: nat = 0;
    assert forall|run: Run<T>| #[trigger]
        fits(calc_distance, calc_center, seeds, lst@, run) implies at_round(
        run,
        centers@,
        contents(previous),
        round,
    ) by {}
    loop
        invariant
            seeds == init_center@,
            n == seeds.len(),
            n > 0,
            lawful::<T>(),
            fits(calc_distance, calc_center, seeds, lst@, model),
            admitted_within(calc_distance, calc_center, model, rounds as nat),
            round + left == rounds,
            centers.len() == n,
            forall|run: Run<T>| #[trigger]
                fits(calc_distance, calc_center, seeds, lst@, run) ==> at_round(
                    run,
                    centers@,
                    contents(previous),
                    round,
                ),
        decreases left,
    {
        if left == 0 {
            return None;
        }
        proof {
            assert(at_round(model, centers@, contents(previous), round));
            lemma_admitted_round(calc_distance, calc_center, model, rounds as nat, round);
        }
        let groups = assign(&calc_distance, centers.as_slice(), lst);
        if same_groups(&previous, &groups) {
            proof {
                assert forall|run: Run<T>| #[trigger]
                    fits(calc_distance, calc_center, seeds, lst@, run) implies run.ends_with(
                    contents(groups),
                ) && run.settled_at(round) by {
                    assert(at_round(run, centers@, contents(previous), round));
                    assert(run.settles_first_at(round));
                }
                lemma_end(model, contents(groups));
            }
            return Some(groups);
        }
        proof {
            assert forall|run: Run<T>| #[trigger]
                fits(calc_distance, calc_center, seeds, lst@, run) implies run.reaches(
                round + 1,
            ) by {
                assert(at_round(run, centers@, contents(previous), round));
                assert(!run.settled_at(round));
            }
        }
        left -= 1;
        if left == 0 {
            return None;
        }
        proof {
            assert(!model.settled_at(round));
            assert forall|i: int| 0 <= i < groups.len() implies center_accepts(
                calc_center,
                #[trigger] groups[i]@,
            ) by {
                assert(groups[i]@ == model.groups_at(round)[i]);
            }
        }
        let next = recenter(&calc_center, &groups);
        proof {
            assert forall|run: Run<T>| #[trigger]
                fits(calc_distance, calc_center, seeds, lst@, run) implies at_round(
                run,
                next@,
                contents(groups),
                round + 1,
            ) by {
                assert(at_round(run, centers@, contents(previous), round));
            }
            round = round + 1;
        }
        centers = next;
        previous = groups;
    }
}

} // verus!
