use geoutils::Location;
use lightning_warning::db::UserLocation;
use lightning_warning::location_utils::get_observation_within_radius;
use lightning_warning::ualf::UalfData;

fn strike() -> UalfData {
    UalfData {
        epoch_ns: 42,
        latitude: 59_911_491,
        longitude: 10_757_933,
        peak_current: -30,
        cloud_indicator: false,
    }
}

fn zone(radius_km: i16) -> UserLocation {
    UserLocation {
        id: 7,
        uuid: String::from("owner-1"),
        latitude: 59_900_000,
        longitude: 10_700_000,
        radius_km,
    }
}

#[test]
fn boundary_is_strict() {
    // Exactly radius_km * 1000 meters away: not matched.
    assert!(get_observation_within_radius(&strike(), &zone(2), Some(2000)).is_none());
    // One meter inside: matched.
    let hit = get_observation_within_radius(&strike(), &zone(2), Some(1999));
    let obs = hit.expect("a strike just inside the radius must match");
    assert_eq!(obs.distance_m, 1999);
    assert_eq!(obs.location_id, 7);
    assert_eq!(obs.epoch_ns, 42);
    assert_eq!(obs.latitude, 59_911_491);
    assert_eq!(obs.longitude, 10_757_933);
    assert_eq!(obs.peak_current, -30);
    assert!(!obs.cloud_indicator);
}

#[test]
fn failed_distance_is_no_match() {
    assert!(get_observation_within_radius(&strike(), &zone(100), None).is_none());
}

#[test]
fn real_distance_through_geoutils() {
    let s = strike();
    let z = zone(10);
    let a = Location::new(s.latitude as f64 / 1e6, s.longitude as f64 / 1e6);
    let b = Location::new(z.latitude as f64 / 1e6, z.longitude as f64 / 1e6);
    let meters = a.distance_to(&b).unwrap().meters();
    let matched = get_observation_within_radius(&s, &z, Some(meters as i64));
    // The two points lie about 3.5 km apart: inside a 10 km zone.
    let obs = matched.expect("a strike well inside the zone must match");
    assert!(obs.distance_m > 3000 && obs.distance_m < 4000);
}
