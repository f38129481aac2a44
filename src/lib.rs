//! Enumeration of fixed polyominoes and search for pairs of equal-size
//! polyominoes that join edge to edge into one connected shape.

pub mod shape;
pub mod connectivity;
pub mod dedup;
pub mod combine;
pub mod growth;
pub mod laws;
