//! Channel-placement advice for wireless access points, and the cache that
//! serves the latest advice per device.

pub mod cache;
pub mod engine;
pub mod iw;
pub mod random;
pub mod reading;
pub mod reading_id;
pub mod wifi;
