//! A limit order book with a price-priority matching engine, a per-trader
//! trade ledger, depth ingestion and book snapshots.
pub mod decimal;
pub mod order;
pub mod text;
pub mod ranking;
pub mod matching;
pub mod store;
pub mod ident;
pub mod stamp;
pub mod service;
pub mod laws;
pub mod depth;
pub mod csvtext;
pub mod snapshot;
pub mod loader;
pub mod config;
