//! Verified core of a dashcam trip viewer.

pub mod app_settings;
pub mod db;
pub mod error;
pub mod gps;
pub mod ids;
pub mod import;
pub mod laws;
pub mod migration_v2;
pub mod model;
pub mod moment;
pub mod paths;
pub mod scan;
pub mod scans;
pub mod sort;
pub mod startup;
pub mod text;
pub mod timelapse;
pub mod trips;
