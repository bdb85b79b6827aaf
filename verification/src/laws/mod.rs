//! What holds of every query.

pub mod arrays;
pub mod chunks;
pub mod fan_out;
pub mod finding;
pub mod members;
pub mod nulls;
pub mod paths;
pub mod picks;
pub mod pruning;
pub mod reading;
pub mod results;
pub mod scanning;
pub mod shape;
pub mod shaping;
pub mod syntax;
pub mod values;
