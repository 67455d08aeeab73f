//! The settings of the exchange.
use vstd::prelude::*;
use crate::snapshot::{snapshot_file_name, snapshot_path};

verus! {

/// Seconds between two depth refresh cycles.
pub const POLL_INTERVAL_SECONDS: u64 = 10;

/// How many submissions the intake holds before a producer has to wait.
pub const INTAKE_CAPACITY: usize = 100;

/// The settings for the depth source and for snapshots.
#[derive(Debug, Clone, PartialEq, Eq)]
pub struct KrakenConfig {
    /// The instruments whose depth is polled, in polling order.
    pub symbols: Vec<String>,
    /// The directory that snapshots are written to.
    pub persist: String,
    /// The snapshot files that books are loaded from in offline mode.
    pub offline: Vec<String>,
}

/// The settings of the exchange.
#[derive(Debug, Clone, PartialEq, Eq)]
pub struct Config {
    pub kraken: KrakenConfig,
}

impl Config {
    /// The name of the snapshot file of an instrument as of now, in the
    /// directory for snapshots: with the current time as the stamp where
    /// `include_timestamp` asks for one.
    pub fn snapshot_path(&self, symbol: &str, include_timestamp: bool) -> (name: String)
        ensures
            !include_timestamp ==> name@ == snapshot_file_name(self.kraken.persist@, symbol@, None),
            include_timestamp ==> exists|stamp: Seq<char>|
                name@ == snapshot_file_name(self.kraken.persist@, symbol@, Some(stamp)),
    {
        snapshot_path(self.kraken.persist.as_str(), symbol, include_timestamp)
    }
}

} // verus!
