//! Scans of the footage.

pub mod coverage;
