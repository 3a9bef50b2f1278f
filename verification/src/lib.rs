//! Verified core of a play-money event exchange: a price–time priority order
//! book with self-trade prevention and IOC/FOK/GTC orders, a market registry
//! whose write-ahead records replay deterministically, the position ledger,
//! risk checks and market-data helpers.

pub mod types;
pub mod book_spec;
pub mod orderbook;
pub mod text;
pub mod engine;
pub mod wal;
pub mod snapshot;
pub mod hash;
pub mod risk;
pub mod ledger;
pub mod md;
pub mod gateway;
