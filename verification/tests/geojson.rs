use lightning_warning::db::cluster_location_inputs;
use lightning_warning::dbscan::DbscanCluster;
use lightning_warning::ualf::UalfData;

fn pt(lat_micro: i64, lon_micro: i64) -> UalfData {
    UalfData {
        epoch_ns: 0,
        latitude: lat_micro,
        longitude: lon_micro,
        peak_current: 0,
        cloud_indicator: false,
    }
}

#[test]
fn empty_cluster_serializes_to_empty_array() {
    let cluster = DbscanCluster { points: vec![], cluster_id: 0 };
    assert_eq!(cluster.convex_hull_geo_json(), "[]");
}

#[test]
fn degenerate_hull_keeps_the_points() {
    let cluster = DbscanCluster {
        points: vec![pt(500_000, 1_000_000), pt(250_000, -1_750_000)],
        cluster_id: 0,
    };
    assert_eq!(cluster.convex_hull_geo_json(), "[[0.5,1],[0.25,-1.75]]");
}

#[test]
fn whole_degrees_print_without_a_fraction() {
    let cluster = DbscanCluster { points: vec![pt(59_000_000, -10_000_000)], cluster_id: 3 };
    assert_eq!(cluster.convex_hull_geo_json(), "[[59,-10]]");
}

#[test]
fn trailing_fraction_zeros_are_trimmed() {
    let cluster = DbscanCluster { points: vec![pt(59_123_400, 10_050_000)], cluster_id: 0 };
    assert_eq!(cluster.convex_hull_geo_json(), "[[59.1234,10.05]]");
}

#[test]
fn square_hull_serializes_counter_clockwise() {
    let one = 1_000_000i64;
    let cluster = DbscanCluster {
        points: vec![pt(0, 0), pt(0, one), pt(one, one), pt(one, 0)],
        cluster_id: 0,
    };
    assert_eq!(cluster.convex_hull_geo_json(), "[[0,0],[0,1],[1,1],[1,0]]");
}

#[test]
fn one_summary_row_per_cluster() {
    let one = 1_000_000i64;
    let clusters = vec![
        DbscanCluster { points: vec![pt(0, 0), pt(0, one)], cluster_id: 0 },
        DbscanCluster { points: vec![pt(2 * one, 2 * one)], cluster_id: 1 },
    ];
    let rows = cluster_location_inputs(99, &clusters);
    assert_eq!(rows.len(), 2);
    assert_eq!(rows[0].prediction_id, 99);
    assert_eq!(rows[1].prediction_id, 99);
    assert_eq!(rows[0].location, "[[0,0],[0,1]]");
    assert_eq!(rows[1].location, "[[2,2]]");
}
