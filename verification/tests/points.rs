use kmeans::point::{calc_center, Point};
use std::cmp::Ordering;

fn at(x: usize, y: usize) -> Point {
    Point { x, y }
}

#[test]
fn the_centroid_is_the_mean_of_each_coordinate() {
    assert_eq!(calc_center(&[at(2, 4), at(4, 8), at(6, 0)]), at(4, 4));
    assert_eq!(calc_center(&[at(7, 3)]), at(7, 3));
}

#[test]
fn the_centroid_is_rounded_down() {
    assert_eq!(calc_center(&[at(0, 1), at(1, 1)]), at(0, 1));
    assert_eq!(calc_center(&[at(9, 9), at(10, 9)]), at(9, 9));
    assert_eq!(calc_center(&[at(1, 0), at(1, 0), at(0, 2)]), at(0, 0));
    assert_eq!(calc_center(&[at(3, 3), at(4, 4), at(4, 4)]), at(3, 3));
}

#[test]
fn the_centroid_of_the_greatest_coordinates_does_not_overflow() {
    let far = at(usize::MAX, usize::MAX);
    assert_eq!(calc_center(&[far, far, far]), far);
    assert_eq!(calc_center(&[far, at(0, 1)]), at(usize::MAX / 2, usize::MAX / 2 + 1));
}

#[test]
fn points_are_ordered_by_x_and_then_by_y() {
    assert!(at(1, 9) < at(2, 0));
    assert!(at(2, 0) < at(2, 1));
    assert!(at(2, 1) <= at(2, 1));
    assert!(at(3, 0) > at(2, 100));
    assert_eq!(at(2, 1).partial_cmp(&at(2, 1)), Some(Ordering::Equal));
    assert_eq!(at(2, 1).partial_cmp(&at(2, 2)), Some(Ordering::Less));
    assert_eq!(at(2, 1).partial_cmp(&at(1, 2)), Some(Ordering::Greater));
}

#[test]
fn both_orders_of_points_agree() {
    let all: Vec<Point> = (0..5).flat_map(|x| (0..5).map(move |y| at(x, y))).collect();
    for a in &all {
        for b in &all {
            assert_eq!(a.partial_cmp(b), Some(a.cmp(b)));
            assert_eq!(a.cmp(b), (a.x, a.y).cmp(&(b.x, b.y)));
            assert_eq!(a == b, a.cmp(b) == Ordering::Equal);
        }
    }
}

#[test]
fn a_copy_of_a_point_is_equal_to_it() {
    let p = at(3, 4);
    let q = p.clone();
    assert_eq!(p, q);
    assert_eq!((q.x, q.y), (3, 4));
    assert_ne!(p, at(4, 3));
}
