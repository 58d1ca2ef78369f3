//! Indoor route finding over a graph of waypoints: a loader that turns
//! waypoint records into a weighted undirected graph with a room index, and
//! an A* search between two waypoints of that graph.

pub mod geometry;
pub mod graph_store;
pub mod graph;
pub mod search;
pub mod rooms;
pub mod loader;
pub mod scenarios;
pub mod floor_plan;
