//! Exact graph statistics and random-walk sampling over adjacency lists
//! whose vertices are numbered `1..=n`, with a public/private flag per vertex.

pub mod graph;
pub mod component;
pub mod walk;
pub mod counts;
pub mod load;
pub mod component_laws;
