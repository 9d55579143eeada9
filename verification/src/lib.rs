//! Reduction of a tiled road network into per-profile routing graphs.
//!
//! A planet-scale road network is partitioned into geospatial tiles. For a
//! chosen travel profile this library keeps only the nodes and ways that
//! through-routing needs: it derives directed, weighted segments from tagged
//! ways, builds a dense-labeled graph, runs one-to-many shortest-path queries
//! between a tile's boundary nodes, and prunes everything that no such path
//! visits. It also stitches way fragments back together when sibling tiles
//! are merged into a coarser zoom, and contracts chains of non-decision nodes
//! into distance-annotated shortcuts.
//!
//! Geometry enters the library only as plain integers: coordinates are
//! microdegrees, distances are meters, durations are milliseconds. The
//! trigonometric projection between degrees and tile numbers, great-circle
//! distances, and all file or network I/O live with the callers.

pub mod binary;
pub mod cli;
pub mod contract;
pub mod coords;
pub mod graph;
pub mod idmap;
pub mod io;
pub mod merge;
pub mod node;
pub mod profile;
pub mod prune;
pub mod queue;
pub mod tile;
pub mod transit;
pub mod way;
