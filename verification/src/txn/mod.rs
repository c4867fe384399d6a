//! Transactions: the engine, its commit protocol and its maintenance.

pub mod calls;
pub mod conflicts;
pub mod engine;
pub mod laws;
pub mod maintain;
pub mod protocol;
pub mod reads;
pub mod recovered;
pub mod runs;
pub mod upkeep;

pub use engine::Z1Kv;
