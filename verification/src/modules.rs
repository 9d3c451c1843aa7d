//! Supporting modules: core numeric utilities, error types, and helpers.

pub mod math;
pub mod stats;
pub mod error;
pub mod utils;
