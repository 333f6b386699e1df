//! Procedural dungeon core: adjacency-rule-driven wave-function-collapse
//! generation, connectivity pruning over the walkable subgraph, and a
//! spatial query layer (neighbour enumeration, distance fields) reused by
//! gameplay AI.

pub mod ai;
pub mod field;
pub mod gameplay;
pub mod gen;
pub mod geom;
pub mod map;
pub mod pattern;
pub mod prune;
mod rng;
pub mod rules;
pub mod tile;
pub mod wave;
