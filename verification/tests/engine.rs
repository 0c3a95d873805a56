use kmeans::k_means::{assign, nearest_center, recenter, same_groups, solve, solve_within};
use kmeans::order::sort_group;
use kmeans::point::{calc_center, Point};

fn pt(x: usize, y: usize) -> Point {
    Point { x, y }
}

fn euclid(c: &Point, p: &Point) -> usize {
    let dx = c.x.abs_diff(p.x);
    let dy = c.y.abs_diff(p.y);
    ((dx * dx + dy * dy) as f64).sqrt() as usize
}

fn mean_or_origin(group: &[Point]) -> Point {
    if group.is_empty() {
        pt(0, 0)
    } else {
        calc_center(group)
    }
}

fn never(_: &[Point]) -> Point {
    panic!("no centroid is asked for")
}

fn line(c: &u64, p: &u64) -> usize {
    c.abs_diff(*p) as usize
}

fn first_or_zero(group: &[u64]) -> u64 {
    if group.is_empty() {
        0
    } else {
        group[0]
    }
}

fn scenario_points() -> Vec<Point> {
    vec![pt(1, 1), pt(9, 9), pt(0, 1), pt(10, 9)]
}

fn scenario_seeds() -> Vec<Point> {
    vec![pt(0, 0), pt(10, 10)]
}

#[test]
fn two_clusters_settle_on_the_near_and_the_far_corner() {
    let groups = solve(euclid, calc_center, scenario_seeds(), &scenario_points());
    assert_eq!(groups, vec![vec![pt(0, 1), pt(1, 1)], vec![pt(9, 9), pt(10, 9)]]);
}

#[test]
fn the_means_of_the_two_corners_are_near_their_centroids() {
    let groups = solve(euclid, calc_center, scenario_seeds(), &scenario_points());
    let means: Vec<(f64, f64)> = groups
        .iter()
        .map(|group| {
            let n = group.len() as f64;
            let x: f64 = group.iter().map(|p| p.x as f64).sum();
            let y: f64 = group.iter().map(|p| p.y as f64).sum();
            (x / n, y / n)
        })
        .collect();
    assert!((means[0].0 - 0.5).abs() < 1e-9 && (means[0].1 - 1.0).abs() < 1e-9);
    assert!((means[1].0 - 9.5).abs() < 1e-9 && (means[1].1 - 9.0).abs() < 1e-9);
}

#[test]
fn centroids_of_the_two_corners_are_the_rounded_means() {
    let groups = solve(euclid, calc_center, scenario_seeds(), &scenario_points());
    let centers = recenter(&calc_center, &groups);
    assert_eq!(centers, vec![pt(0, 1), pt(9, 9)]);
}

#[test]
fn solving_twice_gives_the_same_groups() {
    let lst: Vec<u64> = vec![40, 3, 17, 99, 58, 3, 61, 0, 24, 77];
    let first = solve(line, first_or_zero, vec![10, 50, 90], &lst);
    let second = solve(line, first_or_zero, vec![10, 50, 90], &lst);
    assert_eq!(first, second);
}

#[test]
fn solving_again_from_the_last_centroids_changes_nothing() {
    let lst: Vec<u64> = vec![40, 3, 17, 99, 58, 3, 61, 0, 24, 77];
    let groups = solve(line, first_or_zero, vec![10, 50, 90], &lst);
    let centers = recenter(&first_or_zero, &groups);
    assert_eq!(assign(&line, &centers, &lst), groups);
    assert_eq!(solve(line, first_or_zero, centers.clone(), &lst), groups);
    assert_eq!(solve_within(line, first_or_zero, centers, &lst, 2), Some(groups));
}

#[test]
fn there_are_as_many_groups_as_initial_centroids() {
    let lst: Vec<u64> = vec![40, 3, 17, 99, 58, 3, 61, 0, 24, 77];
    for n in 1..6u64 {
        let seeds: Vec<u64> = (0..n).map(|i| i * 20).collect();
        let groups = solve(line, first_or_zero, seeds, &lst);
        assert_eq!(groups.len(), n as usize);
    }
}

#[test]
fn no_point_is_dropped_or_repeated() {
    let lst: Vec<u64> = vec![40, 3, 17, 99, 58, 3, 61, 0, 24, 77, 3];
    let groups = solve(line, first_or_zero, vec![10, 50, 90], &lst);
    let mut pooled: Vec<u64> = groups.into_iter().flatten().collect();
    pooled.sort();
    let mut given = lst.clone();
    given.sort();
    assert_eq!(pooled, given);
}

#[test]
fn the_order_of_the_points_does_not_matter() {
    let lst: Vec<u64> = vec![40, 3, 17, 99, 58, 3, 61, 0, 24, 77];
    let mut turned = lst.clone();
    turned.reverse();
    let mut shifted = lst.clone();
    shifted.rotate_left(4);
    let groups = solve(line, first_or_zero, vec![10, 50, 90], &lst);
    assert_eq!(solve(line, first_or_zero, vec![10, 50, 90], &turned), groups);
    assert_eq!(solve(line, first_or_zero, vec![10, 50, 90], &shifted), groups);
    assert_eq!(assign(&line, &[10, 50, 90], &turned), assign(&line, &[10, 50, 90], &lst));
}

#[test]
fn every_group_ascends() {
    let lst: Vec<Point> = vec![pt(7, 2), pt(1, 9), pt(7, 1), pt(1, 3), pt(90, 4), pt(88, 80), pt(88, 2)];
    let groups = solve(euclid, mean_or_origin, vec![pt(0, 0), pt(100, 0), pt(100, 100)], &lst);
    for group in &groups {
        for pair in group.windows(2) {
            assert!(pair[0] <= pair[1]);
        }
    }
    assert_eq!(
        groups,
        vec![
            vec![pt(1, 3), pt(1, 9), pt(7, 1), pt(7, 2)],
            vec![pt(88, 2), pt(90, 4)],
            vec![pt(88, 80)],
        ]
    );
}

#[test]
fn a_tie_goes_to_the_first_centroid() {
    let centers = vec![pt(0, 0), pt(2, 0)];
    assert_eq!(nearest_center(&euclid, &centers, &pt(1, 0)), 0);
    let groups = assign(&euclid, &centers, &[pt(1, 0)]);
    assert_eq!(groups, vec![vec![pt(1, 0)], vec![]]);
}

#[test]
fn a_tie_among_later_centroids_goes_to_the_first_of_them() {
    let centers: Vec<u64> = vec![100, 20, 10, 20];
    assert_eq!(nearest_center(&line, &centers, &15), 1);
    assert_eq!(nearest_center(&line, &centers, &14), 2);
    assert_eq!(nearest_center(&line, &centers, &70), 0);
}

#[test]
fn a_tie_is_kept_through_the_rounds() {
    let groups = solve(line, first_or_zero, vec![0, 2], &[1]);
    assert_eq!(groups, vec![vec![1], vec![]]);
}

#[test]
fn no_points_leave_every_group_empty_at_once() {
    let groups = solve(euclid, never, vec![pt(1, 1), pt(2, 2), pt(3, 3)], &[]);
    assert_eq!(groups, vec![Vec::<Point>::new(), Vec::new(), Vec::new()]);
}

#[test]
fn no_points_settle_in_one_round() {
    let found = solve_within(euclid, never, vec![pt(1, 1), pt(2, 2)], &[], 1);
    assert_eq!(found, Some(vec![Vec::<Point>::new(), Vec::new()]));
}

#[test]
fn a_single_centroid_takes_all_points_in_order() {
    let lst = vec![pt(5, 5), pt(0, 9), pt(5, 1), pt(3, 3), pt(0, 9)];
    let groups = solve(euclid, calc_center, vec![pt(50, 50)], &lst);
    assert_eq!(groups, vec![vec![pt(0, 9), pt(0, 9), pt(3, 3), pt(5, 1), pt(5, 5)]]);
}

#[test]
fn a_single_centroid_settles_in_the_second_round() {
    let lst = vec![pt(5, 5), pt(0, 9)];
    assert_eq!(solve_within(euclid, calc_center, vec![pt(50, 50)], &lst, 1), None);
    assert_eq!(
        solve_within(euclid, calc_center, vec![pt(50, 50)], &lst, 2),
        Some(vec![vec![pt(0, 9), pt(5, 5)]])
    );
}

#[test]
fn an_empty_cluster_is_handed_to_the_centroid_function() {
    let asked = std::cell::Cell::new(0usize);
    let center = |group: &[u64]| {
        if group.is_empty() {
            asked.set(asked.get() + 1);
            1000
        } else {
            group[0]
        }
    };
    let groups = solve(line, center, vec![5, 5], &[4, 6]);
    assert_eq!(groups, vec![vec![4, 6], vec![]]);
    assert_eq!(asked.get(), 1);
}

#[test]
fn centroids_move_until_the_groups_repeat() {
    let lst: Vec<u64> = vec![0, 1, 2, 3, 10, 11, 12, 13];
    let mid = |group: &[u64]| {
        if group.is_empty() {
            0
        } else {
            group[group.len() / 2]
        }
    };
    assert_eq!(solve_within(line, mid, vec![0, 1], &lst, 2), None);
    let groups = solve(line, mid, vec![0, 1], &lst);
    assert_eq!(groups, vec![vec![0, 1, 2, 3], vec![10, 11, 12, 13]]);
    assert_eq!(solve_within(line, mid, vec![0, 1], &lst, 3), Some(groups));
}

#[test]
fn a_bound_of_no_round_finds_nothing() {
    assert_eq!(solve_within(line, first_or_zero, vec![1, 2], &[], 0), None);
    assert_eq!(solve_within(line, first_or_zero, vec![1, 2], &[7], 0), None);
}

#[test]
fn the_first_round_never_settles_where_there_are_points() {
    assert_eq!(solve_within(line, first_or_zero, vec![1, 2], &[7], 1), None);
}

#[test]
fn the_bound_counts_the_settling_round() {
    let lst = scenario_points();
    assert_eq!(solve_within(euclid, calc_center, scenario_seeds(), &lst, 1), None);
    assert_eq!(
        solve_within(euclid, calc_center, scenario_seeds(), &lst, 2),
        Some(vec![vec![pt(0, 1), pt(1, 1)], vec![pt(9, 9), pt(10, 9)]])
    );
    assert_eq!(
        solve_within(euclid, calc_center, scenario_seeds(), &lst, 1000),
        Some(vec![vec![pt(0, 1), pt(1, 1)], vec![pt(9, 9), pt(10, 9)]])
    );
}

#[test]
fn assignment_groups_by_nearest_centroid_and_sorts() {
    let centers: Vec<u64> = vec![10, 50, 90];
    let lst: Vec<u64> = vec![40, 3, 17, 99, 58, 3, 61, 0, 24, 77, 30, 70];
    let groups = assign(&line, &centers, &lst);
    assert_eq!(
        groups,
        vec![vec![0, 3, 3, 17, 24, 30], vec![40, 58, 61, 70], vec![77, 99]]
    );
}

#[test]
fn assignment_of_no_points_is_empty_groups() {
    let centers: Vec<u64> = vec![10, 50];
    let groups = assign(&line, &centers, &[]);
    assert_eq!(groups, vec![Vec::<u64>::new(), Vec::new()]);
}

#[test]
fn recentering_asks_for_each_group_in_turn() {
    let groups: Vec<Vec<u64>> = vec![vec![4, 5], vec![], vec![9]];
    assert_eq!(recenter(&first_or_zero, &groups), vec![4, 0, 9]);
    let none: Vec<Vec<u64>> = Vec::new();
    assert_eq!(recenter(&first_or_zero, &none), Vec::<u64>::new());
}

#[test]
fn groups_are_the_same_only_member_by_member() {
    let a: Vec<Vec<u64>> = vec![vec![1, 2], vec![3]];
    assert!(same_groups(&a, &vec![vec![1, 2], vec![3]]));
    assert!(!same_groups(&a, &vec![vec![1], vec![2, 3]]));
    assert!(!same_groups(&a, &vec![vec![2, 1], vec![3]]));
    assert!(!same_groups(&a, &vec![vec![1, 2], vec![3], vec![]]));
    assert!(!same_groups(&a, &vec![vec![1, 2]]));
    let none: Vec<Vec<u64>> = Vec::new();
    assert!(same_groups(&none, &Vec::new()));
    assert!(!same_groups(&none, &vec![vec![]]));
}

#[test]
fn sorting_a_group_puts_it_in_ascending_order() {
    let mut group: Vec<u64> = vec![5, 1, 4, 1, 5, 9, 2, 6, 5, 3];
    sort_group(&mut group);
    assert_eq!(group, vec![1, 1, 2, 3, 4, 5, 5, 5, 6, 9]);
    let mut empty: Vec<u64> = Vec::new();
    sort_group(&mut empty);
    assert!(empty.is_empty());
    let mut one: Vec<u64> = vec![7];
    sort_group(&mut one);
    assert_eq!(one, vec![7]);
    let mut down: Vec<u64> = vec![4, 3, 2, 1, 0];
    sort_group(&mut down);
    assert_eq!(down, vec![0, 1, 2, 3, 4]);
}

#[test]
fn sorting_a_group_agrees_with_the_standard_sort() {
    let mut group: Vec<Point> = Vec::new();
    let mut seed: usize = 12345;
    for _ in 0..200 {
        seed = seed.wrapping_mul(1103515245).wrapping_add(12345) % 2147483648;
        let x = seed % 17;
        seed = seed.wrapping_mul(1103515245).wrapping_add(12345) % 2147483648;
        let y = seed % 17;
        group.push(pt(x, y));
    }
    let mut expected = group.clone();
    expected.sort();
    sort_group(&mut group);
    assert_eq!(group, expected);
}

#[test]
fn many_points_are_split_into_three_ascending_groups() {
    let mut lst: Vec<Point> = Vec::new();
    let mut seed: usize = 2023;
    for _ in 0..800 {
        seed = seed.wrapping_mul(1103515245).wrapping_add(12345) % 2147483648;
        let x = (seed >> 8) % 100;
        seed = seed.wrapping_mul(1103515245).wrapping_add(12345) % 2147483648;
        let y = (seed >> 8) % 100;
        lst.push(pt(x, y));
    }
    let seeds = vec![pt(10, 10), pt(50, 90), pt(90, 10)];
    let found = solve_within(euclid, mean_or_origin, seeds.clone(), &lst, 200);
    let groups = found.expect("the run settles within two hundred rounds");
    assert_eq!(groups.len(), 3);
    for group in &groups {
        assert!(group.windows(2).all(|pair| pair[0] <= pair[1]));
    }
    let mut pooled: Vec<Point> = groups.iter().flatten().copied().collect();
    pooled.sort();
    let mut given = lst.clone();
    given.sort();
    assert_eq!(pooled, given);
    let centers = recenter(&mean_or_origin, &groups);
    assert_eq!(assign(&euclid, &centers, &lst), groups);
    assert_eq!(solve(euclid, mean_or_origin, seeds, &lst), groups);
}

#[test]
fn strings_can_be_clustered_too() {
    let by_length = |c: &String, p: &String| c.len().abs_diff(p.len());
    let shortest = |group: &[String]| {
        if group.is_empty() {
            String::new()
        } else {
            group[0].clone()
        }
    };
    let lst: Vec<String> =
        ["pear", "fig", "banana", "kiwi", "cherry", "plum"].iter().map(|s| s.to_string()).collect();
    let groups = solve(by_length, shortest, vec!["abc".to_string(), "abcdef".to_string()], &lst);
    assert_eq!(
        groups,
        vec![
            vec!["fig".to_string(), "kiwi".to_string(), "pear".to_string(), "plum".to_string()],
            vec!["banana".to_string(), "cherry".to_string()],
        ]
    );
}
