use crate::order::{exact_clone, lawful, leq};
use std::cmp::Ordering;
use vstd::prelude::*;
use vstd::relations::total_ordering;
use vstd::std_specs::cmp::{PartialEqSpecImpl, PartialOrdSpecImpl};

verus! {

/// A point of the plane with natural coordinates. Points are ordered by
/// `x`, and by `y` where `x` is the same.
#[derive(Debug, Clone, Copy, Eq, Ord)]
pub struct Point {
    pub x: usize,
    pub y: usize,
}

impl PartialEq for Point {
    fn eq(&self, other: &Point) -> (same: bool) {
        self.x == other.x && self.y == other.y
    }
}

impl PartialEqSpecImpl for Point {
    open spec fn obeys_eq_spec() -> bool {
        true
    }

    open spec fn eq_spec(&self, other: &Point) -> bool {
        self.x == other.x && self.y == other.y
    }
}

impl PartialOrd for Point {
    fn partial_cmp(&self, other: &Point) -> (order: Option<Ordering>) {
        if self.x < other.x {
            Some(Ordering::Less)
        } else if self.x > other.x {
            Some(Ordering::Greater)
        } else if self.y < other.y {
            Some(Ordering::Less)
        } else if self.y > other.y {
            Some(Ordering::Greater)
        } else {
            Some(Ordering::Equal)
        }
    }
}

impl PartialOrdSpecImpl for Point {
    open spec fn obeys_partial_cmp_spec() -> bool {
        true
    }

    open spec fn partial_cmp_spec(&self, other: &Point) -> Option<Ordering> {
        if self.x < other.x {
            Some(Ordering::Less)
        } else if self.x > other.x {
            Some(Ordering::Greater)
        } else if self.y < other.y {
            Some(Ordering::Less)
        } else if self.y > other.y {
            Some(Ordering::Greater)
        } else {
            Some(Ordering::Equal)
        }
    }
}

/// Points are a point type as the engine needs one.
pub proof fn lemma_point_lawful()
    ensures
        lawful::<Point>(),
{
    reveal(vstd::laws_eq::obeys_concrete_eq);
    assert(total_ordering(leq::<Point>()));
    assert(exact_clone::<Point>());
}

/// The sum of the `x` of `points`.
pub open spec fn sum_x(points: Seq<Point>) -> nat
    decreases points.len(),
{
    if points.len() == 0 {
        0
    } else {
        sum_x(points.drop_last()) + points.last().x as nat
    }
}

/// The sum of the `y` of `points`.
pub open spec fn sum_y(points: Seq<Point>) -> nat
    decreases points.len(),
{
    if points.len() == 0 {
        0
    } else {
        sum_y(points.drop_last()) + points.last().y as nat
    }
}

/// The centroid of a group of points: the mean of their `x` and the mean of
/// their `y`, each rounded down.
pub open spec fn mean(points: Seq<Point>) -> Point {
    Point {
        x: (sum_x(points) / points.len()) as usize,
        y: (sum_y(points) / points.len()) as usize,
    }
}

/// Neither sum exceeds the number of points times the greatest coordinate.
proof fn lemma_sums_bounded(points: Seq<Point>)
    ensures
        sum_x(points) <= points.len() * usize::MAX,
        sum_y(points) <= points.len() * usize::MAX,
    decreases points.len(),
{
    if points.len() > 0 {
        lemma_sums_bounded(points.drop_last());
        assert((points.len() - 1) * usize::MAX + usize::MAX == points.len() * usize::MAX)
            by (nonlinear_arith);
    }
}

/// Computes the centroid of a group of points that has a member.
pub fn calc_center(lst: &[Point]) -> (center: Point)
    requires
        lst@.len() > 0,
    ensures
        center == mean(lst@),
        center.x == sum_x(lst@) / lst@.len(),
        center.y == sum_y(lst@) / lst@.len(),
{
    let len: usize = lst.len();
    let mut x_sum: u128 = 0;
    let mut y_sum: u128 = 0;
    let mut i: usize = 0;
    while i < len
        invariant
            i <= len,
            len == lst@.len(),
            x_sum == sum_x(lst@.take(i as int)),
            y_sum == sum_y(lst@.take(i as int)),
        decreases len - i,
    {
        proof {
            lemma_sums_bounded(lst@.take(i as int));
            assert(i * usize::MAX <= 0xffff_ffff_ffff_fffe * 0xffff_ffff_ffff_ffff)
                by (nonlinear_arith)
                requires
                    i <= 0xffff_ffff_ffff_fffe,
                    usize::MAX <= 0xffff_ffff_ffff_ffff,
            ;
            assert(lst@.take(i + 1).drop_last() == lst@.take(i as int));
        }
        x_sum = x_sum + lst[i].x as u128;
        y_sum = y_sum + lst[i].y as u128;
        i += 1;
    }
    proof {
        assert(lst@.take(len as int) == lst@);
        lemma_sums_bounded(lst@);
        assert(sum_x(lst@) / lst@.len() <= usize::MAX) by (nonlinear_arith)
            requires
                sum_x(lst@) <= lst@.len() * usize::MAX,
                lst@.len() > 0,
        ;
        assert(sum_y(lst@) / lst@.len() <= usize::MAX) by (nonlinear_arith)
            requires
                sum_y(lst@) <= lst@.len() * usize::MAX,
                lst@.len() > 0,
        ;
    }
    Point { x: (x_sum / len as u128) as usize, y: (y_sum / len as u128) as usize }
}

} // verus!
