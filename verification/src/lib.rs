//! A small directed-graph library: adjacency-list graphs, breadth-first
//! search trees, path reconstruction from parent links, Dijkstra distances,
//! a JSON-shaped model of graphs, and the bookkeeping that builds a graph of
//! mutual followers from per-user replies.

pub mod dijkstra;
pub mod explore;
pub mod graph;
pub mod index;
pub mod json;
pub mod priority;
pub mod prompt;
pub mod search;
pub mod social;
pub mod text;
pub mod undirected;
pub mod walks;
