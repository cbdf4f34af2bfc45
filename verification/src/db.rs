use vstd::prelude::*;

use crate::dbscan::DbscanCluster;
use crate::ualf::UalfData;

verus! {

/// A user-defined circular alert zone: center coordinate (microdegrees),
/// radius in kilometers, and an opaque owner identifier.
#[derive(Debug)]
pub struct UserLocation {
    pub id: i64,
    pub uuid: String,
    pub latitude: i64,
    pub longitude: i64,
    pub radius_km: i16,
}

/// A strike matched against one zone, ready for persistence: the strike's
/// fields plus the computed distance to the zone center and the zone's id.
#[derive(Debug, Clone, Copy, PartialEq, Eq, Structural)]
pub struct Observation {
    pub epoch_ns: i64,
    pub latitude: i64,
    pub longitude: i64,
    pub peak_current: i16,
    pub cloud_indicator: bool,
    pub distance_m: i64,
    pub location_id: i64,
}

/// One stored prediction row, as the remote store returns it.
#[derive(Debug)]
pub struct Prediction {
    pub id: i64,
    pub created_at: String,
}

/// The (empty) payload that opens a new prediction row.
#[derive(Debug, Clone, Copy, PartialEq, Eq, Structural)]
pub struct PredictionInput {}

/// One cluster summary tied to a prediction: the hull polygon serialized as a
/// coordinate array.
#[derive(Debug)]
pub struct ClusterLocationInput {
    pub prediction_id: i64,
    pub location: String,
}


/// The rows that replace the prior summary set: one per cluster, each
/// carrying the new prediction's id and that cluster's hull polygon.
pub fn cluster_location_inputs(prediction_id: i64, clusters: &Vec<DbscanCluster>) -> (r: Vec<
    ClusterLocationInput,
>)
    requires
        forall|c: int| 0 <= c < clusters@.len() ==> (#[trigger] clusters@[c]).coords_valid(),
    ensures
        r@.len() == clusters@.len(),
        forall|c: int|
            0 <= c < r@.len() ==> (#[trigger] r@[c]).prediction_id == prediction_id
                && r@[c].location@ == crate::dbscan::geo_json_of(
                crate::convex_hull::hull_points_of(
                    clusters@[c].points@.map_values(|p: UalfData| (p.latitude, p.longitude)),
                ),
            ),
{
    let mut out: Vec<ClusterLocationInput> = Vec::new();
    let mut i: usize = 0;
    while i < clusters.len()
        invariant
            i <= clusters@.len(),
            out@.len() == i,
            forall|c: int| 0 <= c < clusters@.len() ==> (#[trigger] clusters@[c]).coords_valid(),
            forall|c: int|
                0 <= c < i ==> (#[trigger] out@[c]).prediction_id == prediction_id
                    && out@[c].location@ == crate::dbscan::geo_json_of(
                    crate::convex_hull::hull_points_of(
                        clusters@[c].points@.map_values(|p: UalfData| (p.latitude, p.longitude)),
                    ),
                ),
        decreases clusters@.len() - i,
    {
        let location = clusters[i].convex_hull_geo_json();
        out.push(ClusterLocationInput { prediction_id, location });
        i = i + 1;
    }
    out
}

} // verus!
