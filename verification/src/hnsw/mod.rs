//! The graph index: a hierarchical navigable small world.
//!
//! Nodes are linked to near neighbours on several layers; the higher the
//! layer, the fewer nodes are on it. A search walks greedily down the upper
//! layers and ends with a beam search on the lowest one.

pub mod beam;
pub mod canonical;
pub mod descent;
pub mod graph;
pub mod health;
pub mod index;
pub mod insert;
pub mod laws;
pub mod persist;
pub mod persist_laws;
pub mod reach;
pub mod scratch;
pub mod segvec;
pub mod select;
pub mod spread;
pub mod tidy;
pub mod trace;
pub mod traverse;
pub mod weave;

pub use index::{Hnsw, HnswConfig};
