//! Recognising video files and grouping them into trips.

pub mod errors;
pub mod grouping;
pub mod naming;
pub mod siblings;
