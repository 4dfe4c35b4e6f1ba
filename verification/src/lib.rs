//! An incremental, multi-algorithm maze-generation engine.
//!
//! A rectangular grid of cells is carved into a perfect maze (a spanning
//! tree of passages) by one of four classic randomized algorithms: a
//! depth-first backtracker, Prim's randomized frontier expansion,
//! Kruskal's randomized union-find, or the Aldous-Broder uniform random
//! walk.  Generation is driven in bounded micro-steps so that a caller
//! can pause, inspect and resume it at any point.

pub mod algorithms;
pub mod connectivity;
pub mod counting;
pub mod engine;
pub mod maze;
pub mod menu;
pub mod node;
pub mod render;
pub mod rng;
pub mod settings;
pub mod timing;
pub mod union_find;
