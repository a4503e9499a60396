//! Graph coarsening by nearest-neighbour affinity and balanced linear
//! partitioning of the resulting vertex line.
//!
//! Vertices are identified by small integers (`usize`); a graph is a list of
//! weighted directed edges over those identifiers, undirected links being
//! given in both directions.
//!
//! - `union_find`: union by size with explicit member lists per root.
//! - `graph`: edges, weighted nodes, grouping and closest out-edges.
//! - `coarsen`: rounds of nearest-neighbour contraction, and the line that
//!   lays the resulting clusters out.
//! - `common_neighbors`: reweights a graph by shared in-neighbours.
//! - `rank_swap`: greedy exchange between paired partitions of the line.
//! - `interval_dp`: the exact split of the line into contiguous parts.
//! - `pipeline`: from clusters to a weighted, optionally balanced line.
//! - `leap_year`, `ring_buffer`, `my_vec`: small stand-alone utilities.

pub mod error;
pub mod union_find;
pub mod graph;
pub mod coarsen;
pub mod interval_dp;
pub mod common_neighbors;
pub mod rank_swap;
pub mod pipeline;
pub mod leap_year;
pub mod ring_buffer;
pub mod my_vec;
