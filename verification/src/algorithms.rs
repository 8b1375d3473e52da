//! The algorithms of the library: traversal, connectivity, arc mapping,
//! relabeling and union.

pub mod arc_map;
pub mod arc_mappers;
pub mod connect;
pub mod dfs_visit;
pub mod relabel_pairs;
pub mod union;
pub mod visitors;
