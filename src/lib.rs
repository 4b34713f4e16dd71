//! Stable identifiers for locations in successive releases of a binary.
//!
//! Locations discovered in each release become nodes of a correlation graph;
//! diff correlations become edges; each connected component gets one
//! identifier, seeded from previously published address bins or freshly minted.

pub mod addrlib;
pub mod common;
pub mod diffs;
pub mod graph;
pub mod names;
pub mod offsets;
pub mod text;
