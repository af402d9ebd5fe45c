//! Stepwise search of a two-dimensional grid maze.
//!
//! A [`tilemap::TileMap`] is a validated rectangular table of tiles with one
//! start and one end tile. A [`maze::Maze`] wraps it and hands out the nodes
//! that address its cells. A searcher of [`search`] holds a frontier of
//! paths from the start; each step expands one path, chosen depth first,
//! breadth first or by A*, and returns the node at its tail. The caller
//! stops when that node is the end, or when a step returns `None`.
//! [`display`] holds what a renderer needs to show a search while it runs.

pub mod display;
pub mod maze;
pub mod search;
pub mod tilemap;
