use vstd::prelude::*;

use crate::db::{Observation, UserLocation};
use crate::ualf::UalfData;

verus! {

/// Point-in-circle geofencing: matches a strike against one zone, given the
/// great-circle distance between the strike and the zone center in whole
/// meters (`None` when the distance computation upstream failed). The strike
/// matches exactly when that distance is strictly less than the zone radius;
/// a failed distance is treated as "no match".
pub fn get_observation_within_radius(
    ualf_observation: &UalfData,
    user_location: &UserLocation,
    distance_m: Option<i64>,
) -> (r: Option<Observation>)
    ensures
        match distance_m {
            Option::None => r is None,
            Option::Some(d) => {
                if (d as int) < (user_location.radius_km as int) * 1000 {
                    r == Some(
                        (Observation {
                            epoch_ns: ualf_observation.epoch_ns,
                            latitude: ualf_observation.latitude,
                            longitude: ualf_observation.longitude,
                            peak_current: ualf_observation.peak_current,
                            cloud_indicator: ualf_observation.cloud_indicator,
                            distance_m: d,
                            location_id: user_location.id,
                        }),
                    )
                } else {
                    r is None
                }
            },
        },
{
    let user_radius_m: i64 = (user_location.radius_km as i64) * 1000;
    match distance_m {
        Option::None => Option::None,
        Option::Some(d) => {
            if d < user_radius_m {
                Option::Some(
                    Observation {
                        epoch_ns: ualf_observation.epoch_ns,
                        latitude: ualf_observation.latitude,
                        longitude: ualf_observation.longitude,
                        peak_current: ualf_observation.peak_current,
                        cloud_indicator: ualf_observation.cloud_indicator,
                        distance_m: d,
                        location_id: user_location.id,
                    },
                )
            } else {
                Option::None
            }
        },
    }
}

} // verus!
