//! What holds of decoding as a whole.

pub mod breaks;
pub mod complaints;
pub mod grafting;
pub mod models;
pub mod numbers;
pub mod reading;
pub mod references;
pub mod refusals;
pub mod rendering;
pub mod round_trip;
pub mod scope;
pub mod sources;
pub mod trees;
