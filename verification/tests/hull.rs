use lightning_warning::convex_hull::compute_convex_hull;
use lightning_warning::ualf::UalfData;

fn pt(lat_micro: i64, lon_micro: i64) -> UalfData {
    UalfData {
        epoch_ns: 0,
        latitude: lat_micro,
        longitude: lon_micro,
        peak_current: 0,
        cloud_indicator: false,
    }
}

const ONE: i64 = 1_000_000;

#[test]
fn square_keeps_all_four_vertices_counter_clockwise() {
    let points = vec![pt(0, 0), pt(0, ONE), pt(ONE, ONE), pt(ONE, 0)];
    let hull = compute_convex_hull(points);
    assert_eq!(hull, vec![(0, 0), (0, ONE), (ONE, ONE), (ONE, 0)]);
}

#[test]
fn interior_point_is_excluded() {
    let points = vec![pt(0, 0), pt(0, ONE), pt(ONE, ONE), pt(ONE, 0), pt(ONE / 2, ONE / 2)];
    let hull = compute_convex_hull(points);
    assert_eq!(hull, vec![(0, 0), (0, ONE), (ONE, ONE), (ONE, 0)]);
}

#[test]
fn empty_input_gives_empty_hull() {
    let hull = compute_convex_hull(vec![]);
    assert!(hull.is_empty());
}

#[test]
fn one_point_comes_back_unchanged() {
    let hull = compute_convex_hull(vec![pt(3, 4)]);
    assert_eq!(hull, vec![(3, 4)]);
}

#[test]
fn two_points_come_back_unchanged() {
    let hull = compute_convex_hull(vec![pt(3, 4), pt(1, 2)]);
    assert_eq!(hull, vec![(3, 4), (1, 2)]);
}

#[test]
fn collinear_interior_point_is_dropped() {
    let points = vec![pt(0, 0), pt(ONE, ONE), pt(2 * ONE, 2 * ONE)];
    let hull = compute_convex_hull(points);
    assert_eq!(hull, vec![(0, 0), (2 * ONE, 2 * ONE)]);
}

#[test]
fn anchor_is_lowest_latitude_then_lowest_longitude() {
    let points = vec![pt(ONE, 0), pt(0, ONE), pt(0, 0), pt(ONE, ONE)];
    let hull = compute_convex_hull(points);
    assert_eq!(hull[0], (0, 0));
    assert_eq!(hull.len(), 4);
}
