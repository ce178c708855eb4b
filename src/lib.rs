//! Dense ranking: sort a sequence by a derived key and tag every item with a
//! 1-based rank, where equal keys share a rank and the next distinct key gets
//! the next integer.

pub mod laws;
pub mod rank;

pub use rank::Rank;
pub use rank::RankedBy;
pub use rank::RankedExt;
