//! What the operations are for: how their results relate to what they were given,
//! and to each other.

pub mod cleanup;
pub mod coverage;
pub mod curves;
pub mod encode;
pub mod encoder;
pub mod gps;
pub mod grouping;
pub mod import;
pub mod jobs;
pub mod joins;
pub mod library;
pub mod machine;
pub mod merge;
pub mod moment;
pub mod naming;
pub mod paths;
pub mod reads;
pub mod reports;
pub mod seqs;
pub mod siblings;
pub mod text;
pub mod trips;
pub mod worker;
