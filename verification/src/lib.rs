pub mod chain;
pub mod walker;

pub use chain::Chain;
pub use chain::ChainError;
pub use chain::DestCount;
pub use chain::TransitionEntry;
pub use walker::ChainIterator;
