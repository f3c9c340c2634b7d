//! The vectors on disk, and exhaustive search over them.

pub mod exact;
pub mod laws;
pub mod nearest;
pub mod neighbor;
pub mod order;
pub mod store;

pub use exact::search as exact_search;
pub use neighbor::Neighbor;
pub use store::VectorStore;
