//! The tables of the archive database, and the rules that keep them.

pub mod manual_trip_merges;
pub mod migrations;
pub mod queries;
pub mod rows;
pub mod segments;
pub mod settings;
pub mod table;
pub mod timelapse_jobs;
pub mod trip_merging;
