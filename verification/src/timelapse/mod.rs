//! Timelapses of trips: what to encode, how fast, and what became of it.

pub mod cleanup;
pub mod commands;
pub mod concurrency;
pub mod ffmpeg;
pub mod speed_curve;
pub mod types;
pub mod worker;
