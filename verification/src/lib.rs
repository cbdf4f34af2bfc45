//! Core of a lightning-warning service: parsing of the upstream strike feed,
//! an idempotent deduplication ring, point-in-circle geofencing, a
//! density-based clustering of strikes, and a convex-hull summary of each
//! cluster. Coordinates are carried as microdegrees and distances as whole
//! meters, so every rule here is stated and proved over plain integers; the
//! network, the store and the floating-point distance computations live in
//! the surrounding binary.

pub mod convex_hull;
pub mod db;
pub mod dbscan;
pub mod frost;
pub mod location_utils;
pub mod ualf;
pub mod ualf_buffer;
