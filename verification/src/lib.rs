//! Analysis of undirected graphs given as edge lists.
//!
//! An edge list of arbitrary vertex identifiers is turned into a graph over
//! dense indices (`edges`, `adjacency`, `graph`); `edge_list` reads an edge
//! from a line of text. On the graph the library computes hop distances from
//! a source by breadth-first search (`bfs`), the connected components
//! (`components`) and mean, maximum and median of a distance distribution
//! (`stats`). `paths` holds the mathematical model that the contracts speak
//! of: walks, connection and hop distance. `walk` makes random walks over
//! user records.

pub mod error;
pub mod paths;
pub mod sorting;
pub mod graph;
pub mod edge_list;
pub mod edges;
pub mod adjacency;
pub mod bfs;
pub mod components;
pub mod stats;
pub mod walk;
