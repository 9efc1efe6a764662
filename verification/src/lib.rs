//! Structural metrics of a static, unweighted graph: shortest hop distances
//! from a source, the connected components, and the integer aggregates from
//! which eccentricity, closeness and the average distance are derived.

pub mod graph;
pub mod walks;
pub mod bfs;
pub mod components;
pub mod partition;
pub mod metrics;
