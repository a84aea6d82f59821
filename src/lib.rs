//! Assigns coordinates to time-stamped photos from a log of GPS fixes and
//! groups the photos by place and by time with density-based clustering.

pub mod geo;
pub mod exif;
pub mod location;
pub mod dbscan;
pub mod photo;
pub mod clusters;
pub mod win;
