pub mod graph;
pub mod json;
pub mod search;
