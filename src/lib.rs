//! Disjoint-set forests in four flavours, identifier generators, and a
//! percolation simulator built on top of them.
pub mod fnv_map;
pub mod generator;
pub mod union_find;
pub mod packed;
pub mod percolation;
