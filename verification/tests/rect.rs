use rtree_rs::order::compare;
use rtree_rs::rect::{max, min};
use rtree_rs::Rect;
use std::cmp::Ordering;

#[test]
fn new_keeps_both_corners() {
    let r = Rect::new([1, 2], [3, 4]);
    assert_eq!(r.min, [1, 2]);
    assert_eq!(r.max, [3, 4]);
}

#[test]
fn new_point_is_degenerate() {
    let r = Rect::new_point([5, -7, 9]);
    assert_eq!(r.min, [5, -7, 9]);
    assert_eq!(r.max, [5, -7, 9]);
    assert_eq!(r, Rect::new([5, -7, 9], [5, -7, 9]));
}

#[test]
fn min_max_compare() {
    assert_eq!(min(3, 5), 3);
    assert_eq!(min(5, 3), 3);
    assert_eq!(max(3, 5), 5);
    assert_eq!(max(-3, -5), -3);
    assert_eq!(compare(1, 2), Ordering::Less);
    assert_eq!(compare(2, 1), Ordering::Greater);
    assert_eq!(compare(2, 2), Ordering::Equal);
}

#[test]
fn expand_gives_the_union() {
    let mut r = Rect::new([0, 0], [2, 2]);
    r.expand(&Rect::new([-1, 1], [1, 5]));
    assert_eq!(r, Rect::new([-1, 0], [2, 5]));
    let mut s = Rect::new([0, 0], [10, 10]);
    s.expand(&Rect::new([2, 2], [3, 3]));
    assert_eq!(s, Rect::new([0, 0], [10, 10]));
}

#[test]
fn largest_axis_takes_the_first_of_equals() {
    assert_eq!(Rect::new([0, 0, 0], [1, 5, 3]).largest_axis(), 1);
    assert_eq!(Rect::new([0, 0, 0], [4, 4, 4]).largest_axis(), 0);
    assert_eq!(Rect::new([0, 0, 0], [1, 2, 2]).largest_axis(), 1);
    assert_eq!(Rect::new([0, 0], [1, 9]).largest_axis(), 1);
    let none: Rect<0> = Rect::new([], []);
    assert_eq!(none.largest_axis(), 0);
}

#[test]
fn contains_needs_every_axis() {
    let outer = Rect::new([0, 0], [10, 10]);
    assert!(outer.contains(&Rect::new([0, 0], [10, 10])));
    assert!(outer.contains(&Rect::new([1, 1], [9, 9])));
    assert!(!outer.contains(&Rect::new([1, 1], [11, 9])));
    assert!(!outer.contains(&Rect::new([-1, 1], [9, 9])));
    assert!(!Rect::new([1, 1], [9, 9]).contains(&outer));
}

#[test]
fn intersects_counts_touching_edges() {
    let a = Rect::new([0, 0], [10, 10]);
    assert!(a.intersects(&Rect::new([10, 10], [20, 20])));
    assert!(a.intersects(&Rect::new([5, 5], [6, 6])));
    assert!(a.intersects(&Rect::new([-5, -5], [0, 0])));
    assert!(!a.intersects(&Rect::new([11, 0], [20, 10])));
    assert!(!a.intersects(&Rect::new([0, -9], [10, -1])));
    assert!(Rect::new([5, 5], [6, 6]).intersects(&a));
}

#[test]
fn on_edge_is_false_only_strictly_inside() {
    let a = Rect::new([0, 0], [10, 10]);
    assert!(!a.on_edge(&Rect::new([1, 1], [9, 9])));
    assert!(a.on_edge(&Rect::new([0, 1], [9, 9])));
    assert!(a.on_edge(&Rect::new([1, 1], [9, 10])));
    assert!(a.on_edge(&Rect::new([1, 1], [9, 12])));
    assert!(a.on_edge(&a));
}

#[test]
fn area_is_the_product_of_the_extents() {
    assert_eq!(Rect::new([0, 0], [2, 3]).area(), 6);
    assert_eq!(Rect::new([-1, -1, -1], [1, 2, 3]).area(), 24);
    assert_eq!(Rect::new_point([4, 4]).area(), 0);
    assert_eq!(Rect::new([5], [12]).area(), 7);
    let none: Rect<0> = Rect::new([], []);
    assert_eq!(none.area(), 0);
}

#[test]
fn unioned_area_is_the_area_of_the_union() {
    let a = Rect::new([0, 0], [2, 2]);
    let b = Rect::new([3, 1], [5, 4]);
    assert_eq!(a.unioned_area(&b), 20);
    assert_eq!(b.unioned_area(&a), 20);
    assert_eq!(a.unioned_area(&a), 4);
    assert_eq!(a, Rect::new([0, 0], [2, 2]));
    let none: Rect<0> = Rect::new([], []);
    assert_eq!(none.unioned_area(&none), 0);
}

#[test]
fn box_dist_sums_the_squared_gaps() {
    let a = Rect::new([0, 0], [1, 1]);
    assert_eq!(a.box_dist(&Rect::new([4, 5], [6, 7])), 9 + 16);
    assert_eq!(a.box_dist(&Rect::new([-6, -3], [-2, -1])), 4 + 1);
    assert_eq!(a.box_dist(&Rect::new([1, 1], [2, 2])), 0);
    assert_eq!(a.box_dist(&Rect::new([0, 3], [1, 4])), 4);
    assert_eq!(a.box_dist(&a), 0);
    assert_eq!(Rect::new_point([0, 0]).box_dist(&Rect::new_point([3, 4])), 25);
    let none: Rect<0> = Rect::new([], []);
    assert_eq!(none.box_dist(&none), 0);
}

#[test]
fn default_is_the_origin() {
    let r: Rect<3> = Rect::default();
    assert_eq!(r, Rect::new_point([0, 0, 0]));
    assert_eq!(r.area(), 0);
}

#[test]
fn is_valid_compares_the_bounds_on_every_axis() {
    assert!(Rect::new([0, 0], [0, 5]).is_valid());
    assert!(!Rect::new([0, 6], [9, 5]).is_valid());
    assert!(!Rect::new([1, 0], [0, 5]).is_valid());
    let none: Rect<0> = Rect::new([], []);
    assert!(none.is_valid());
}

#[test]
fn is_measurable_asks_that_every_partial_product_fits() {
    assert!(Rect::new([0, 0], [3_000_000_000, 3_000_000_000]).is_measurable());
    assert!(!Rect::new([0, 0], [4_000_000_000, 4_000_000_000]).is_measurable());
    assert!(Rect::new([i64::MIN + 1], [0]).is_measurable());
    assert!(!Rect::new([i64::MIN], [0]).is_measurable());
    assert!(!Rect::new([-1], [i64::MAX]).is_measurable());
    // the product of the first two extents does not fit, whatever the third
    assert!(!Rect::new([0, 0, 5], [4_000_000_000, 4_000_000_000, 5]).is_measurable());
    assert!(Rect::new([0, 5, 0], [4_000_000_000, 5, 4_000_000_000]).is_measurable());
    assert!(!Rect::new([3, 0], [2, 0]).is_measurable());
    assert_eq!(Rect::new([0, 0], [3_000_000_000, 3_000_000_000]).area(), 9_000_000_000_000_000_000);
}
