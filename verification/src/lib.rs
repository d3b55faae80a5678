//! Minimum-weight paths through a directed multigraph given as a list of
//! weighted edges. Locations exist only as the entry and exit codes that the
//! edges carry.
//!
//! A search runs in three steps. The normalizer (`normalize`) checks the
//! identifiers and prunes the edges that can lie on no walk from the start
//! to the end. The enumerator (`search`) grows walks from the start, one
//! edge per generation, and returns every route: every walk that follows
//! adjacent edges, takes no edge twice and stops when it first reaches the
//! end. The selection (`select`) keeps the routes that weigh least, ties
//! included. `shortest` puts the three together.
//!
//! The contracts speak of the model in `route` and `frontier`; `laws` holds
//! what follows from them for every graph.

pub mod edge;
pub mod frontier;
mod generation;
pub mod laws;
pub mod normalize;
pub mod path;
pub mod route;
pub mod samples;
pub mod search;
pub mod select;
pub mod shortest;
pub mod sift;
