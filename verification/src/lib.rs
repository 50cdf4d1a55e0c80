//! Breadth-first shortest-path search over a grid of tiles.
//!
//! A [`graph::Graph`] owns a flat array of tile bytes. From it a map of
//! [`node::Node`]s is derived, keyed by the textual key of each cell's
//! [`position::Position`]. A [`problem::Problem`] bundles such a map with a
//! start and a goal key, and [`breath_first_search::BreathFirstSearch`] finds
//! a shortest path between the two and marks it in a mask over the grid.
//!
//! What the search returns is defined in [`search_model`], and what the mask
//! marks in [`backtrace`]. That the search finds a shortest way exactly
//! where there is a way, and that the mask marks it, is proved in
//! [`search_proofs`] and [`path_proofs`] over the notions of
//! [`shortest_path`].

pub mod backtrace;
pub mod breath_first_search;
pub mod graph;
pub mod node;
pub mod path_proofs;
pub mod position;
pub mod predecessors;
pub mod problem;
pub mod search_model;
pub mod search_proofs;
pub mod shortest_path;
pub mod state;
pub mod tile;
