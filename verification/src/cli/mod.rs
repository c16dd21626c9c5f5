pub mod hashes;
pub mod order;
pub mod query;
pub mod targets;
pub mod laws;
