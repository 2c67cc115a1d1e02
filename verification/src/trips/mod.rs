//! Deleting and joining trips.

pub mod commands;
pub mod merge;
