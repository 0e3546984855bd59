//! Constraint systems of the in-circuit verifier: a transcript region, one tile per query, and the
//! fused system that holds both.
pub mod accepted;
pub mod cells;
pub mod fused;
pub mod fused_complete;
pub mod fused_demands;
pub mod fused_laws;
pub mod fused_trace;
pub mod general;
pub mod geometry;
pub mod index;
pub mod leaf_hash;
pub mod merkle_tile;
pub mod parts;
pub mod path_rows;
pub mod phase4a;
pub mod phase4a_complete;
pub mod public_laws;
pub mod query;
pub mod query_tile;
pub mod region;
pub mod segment;
pub mod segment_laws;
pub mod skeleton;
pub mod sponge;
pub mod super_tile;
pub mod tiled;
