use geoutils::Location;
use lightning_warning::dbscan::{cluster_lightning, DbscanParams};
use lightning_warning::ualf::UalfData;

fn mk(ts: i64, lat_micro: i64, lon_micro: i64) -> UalfData {
    UalfData {
        epoch_ns: ts,
        latitude: lat_micro,
        longitude: lon_micro,
        peak_current: -20,
        cloud_indicator: false,
    }
}

/// Pairwise great-circle distances in whole meters, via geoutils.
fn distance_table(data: &[UalfData]) -> Vec<Vec<i64>> {
    let mut table = Vec::new();
    for a in data {
        let mut row = Vec::new();
        let la = Location::new(a.latitude as f64 / 1e6, a.longitude as f64 / 1e6);
        for b in data {
            let lb = Location::new(b.latitude as f64 / 1e6, b.longitude as f64 / 1e6);
            row.push(la.haversine_distance_to(&lb).meters() as i64);
        }
        table.push(row);
    }
    table
}

/// Three strikes within 2 km of each other near Oslo, and two far away.
fn three_close_two_far() -> Vec<UalfData> {
    vec![
        mk(1, 59_910_000, 10_750_000),
        mk(2, 59_920_000, 10_760_000),
        mk(3, 59_915_000, 10_770_000),
        mk(4, 63_430_000, 10_390_000),
        mk(5, 50_000_000, 14_400_000),
    ]
}

#[test]
fn defaults_are_ten_km_and_three_points() {
    let params = DbscanParams::default();
    assert_eq!(params.eps_m, 10_000);
    assert_eq!(params.min_points, 3);
}

#[test]
fn group_of_exactly_min_points_forms_no_cluster() {
    // A seed's neighbor query excludes the seed itself, so three mutually
    // close points give each seed only two neighbors: below the threshold.
    let data = three_close_two_far();
    let dists = distance_table(&data);
    let clusters = cluster_lightning(&data, &dists, &DbscanParams::default());
    assert_eq!(clusters.len(), 0);
}

#[test]
fn group_above_min_points_forms_one_cluster() {
    let mut data = three_close_two_far();
    // A fourth strike inside the close group pushes the first seed to three
    // neighbors, and the whole group becomes one cluster.
    data.push(mk(6, 59_912_000, 10_755_000));
    let dists = distance_table(&data);
    let clusters = cluster_lightning(&data, &dists, &DbscanParams::default());
    assert_eq!(clusters.len(), 1);
    assert_eq!(clusters[0].cluster_id, 0);
    let mut members: Vec<i64> = clusters[0].points.iter().map(|p| p.epoch_ns).collect();
    members.sort();
    assert_eq!(members, vec![1, 2, 3, 6]);
}

#[test]
fn small_isolated_group_stays_noise() {
    // A dense group of four plus a mutually-close pair far away: the pair is
    // below the density threshold and isolated, so it never joins a cluster.
    let data = vec![
        mk(1, 59_910_000, 10_750_000),
        mk(2, 59_920_000, 10_760_000),
        mk(3, 59_915_000, 10_770_000),
        mk(4, 59_912_000, 10_755_000),
        mk(50, 50_000_000, 14_400_000),
        mk(51, 50_010_000, 14_410_000),
    ];
    let dists = distance_table(&data);
    let clusters = cluster_lightning(&data, &dists, &DbscanParams::default());
    assert_eq!(clusters.len(), 1);
    let members: Vec<i64> = clusters[0].points.iter().map(|p| p.epoch_ns).collect();
    assert!(!members.contains(&50));
    assert!(!members.contains(&51));
    assert_eq!(members.len(), 4);
}

#[test]
fn repeated_runs_produce_the_same_clusters() {
    let mut data = three_close_two_far();
    data.push(mk(6, 59_912_000, 10_755_000));
    let dists = distance_table(&data);
    let params = DbscanParams::default();
    let a = cluster_lightning(&data, &dists, &params);
    let b = cluster_lightning(&data, &dists, &params);
    assert_eq!(a.len(), b.len());
    for (ca, cb) in a.iter().zip(b.iter()) {
        assert_eq!(ca.cluster_id, cb.cluster_id);
        let pa: Vec<i64> = ca.points.iter().map(|p| p.epoch_ns).collect();
        let pb: Vec<i64> = cb.points.iter().map(|p| p.epoch_ns).collect();
        assert_eq!(pa, pb);
    }
}

#[test]
fn neighbor_radius_is_inclusive() {
    // Distances handed in directly: a pair exactly at eps_m counts as a
    // neighbor, one meter further does not.
    let data = vec![
        mk(1, 0, 0),
        mk(2, 0, 0),
        mk(3, 0, 0),
        mk(4, 0, 0),
    ];
    let at_eps = vec![
        vec![0, 10_000, 10_000, 10_000],
        vec![10_000, 0, 10_000, 10_000],
        vec![10_000, 10_000, 0, 10_000],
        vec![10_000, 10_000, 10_000, 0],
    ];
    let params = DbscanParams::default();
    let clusters = cluster_lightning(&data, &at_eps, &params);
    assert_eq!(clusters.len(), 1);
    assert_eq!(clusters[0].points.len(), 4);

    let beyond = vec![
        vec![0, 10_001, 10_001, 10_001],
        vec![10_001, 0, 10_001, 10_001],
        vec![10_001, 10_001, 0, 10_001],
        vec![10_001, 10_001, 10_001, 0],
    ];
    let clusters = cluster_lightning(&data, &beyond, &params);
    assert_eq!(clusters.len(), 0);
}

#[test]
fn cluster_projections() {
    let mut data = three_close_two_far();
    data.push(mk(6, 59_912_000, 10_755_000));
    let dists = distance_table(&data);
    let clusters = cluster_lightning(&data, &dists, &DbscanParams::default());
    let c = &clusters[0];
    assert_eq!(c.time_span_ns(), 5);
    assert_eq!(c.average_current(), -20);
    let (lat, lon) = c.center();
    // Mean of the four member coordinates, truncated toward zero.
    assert_eq!(lat, (59_910_000i64 + 59_920_000 + 59_915_000 + 59_912_000) / 4);
    assert_eq!(lon, (10_750_000i64 + 10_760_000 + 10_770_000 + 10_755_000) / 4);
}

#[test]
fn end_to_end_scenario_cluster_and_hull() {
    // Five close strikes and two far ones; the close group becomes one
    // cluster and its hull spans the group's outer coordinates.
    let data = vec![
        mk(10, 59_910_000, 10_750_000),
        mk(11, 59_920_000, 10_760_000),
        mk(12, 59_915_000, 10_770_000),
        mk(13, 59_912_000, 10_755_000),
        mk(14, 59_917_000, 10_765_000),
        mk(15, 63_430_000, 10_390_000),
        mk(16, 50_000_000, 14_400_000),
    ];
    let dists = distance_table(&data);
    let clusters = cluster_lightning(&data, &dists, &DbscanParams::default());
    assert_eq!(clusters.len(), 1);
    assert_eq!(clusters[0].points.len(), 5);
    let hull = clusters[0].convex_hull();
    // Every hull vertex is one of the close strikes' coordinates, and the
    // hull starts at the lowest-latitude member.
    assert!(hull.points.len() >= 3);
    assert_eq!(hull.points[0], (59_910_000, 10_750_000));
    for v in &hull.points {
        assert!(data[..5].iter().any(|p| (p.latitude, p.longitude) == *v));
    }
}
