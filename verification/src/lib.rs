//! A price-oracle time-series store: per-asset bounded price histories with
//! point, latest, windowed, cross-asset and time-weighted-average queries.
//!
//! The engine is an explicit state value ([`feed::DataFeed`]) plus an
//! admin-gated wrapper ([`contract::Contract`]); the host that persists the
//! state and authenticates callers is outside this crate.

use vstd::prelude::*;

pub mod contract;
pub mod cross;
pub mod feed;
pub mod history;
pub mod laws;
pub mod twap;

verus! {

/// A quoted asset: either a chain-native account/contract reference or an
/// opaque external symbol. Both payloads are compact numeric handles (an
/// address handle, or a short symbol packed into an integer); the engine only
/// compares them for equality.
#[derive(Clone, Copy, PartialEq, Eq, Structural, Debug)]
pub enum Asset {
    /// A chain-native asset, identified by an address handle.
    Stellar(u64),
    /// An external token or symbol, identified by a packed symbol code.
    Other(u64),
}

/// One price observation: a fixed-point price at `decimals` precision and a
/// millisecond timestamp.
#[derive(Clone, Copy, PartialEq, Eq, Structural, Debug)]
pub struct PriceData {
    /// Asset price at the given point in time.
    pub price: i128,
    /// Recording timestamp, in milliseconds.
    pub timestamp: u64,
}

/// Failure modes of the gated operations. Missing data on read paths is an
/// absent result (`None`), never an error.
#[derive(Clone, Copy, PartialEq, Eq, Structural, Debug)]
pub enum Error {
    /// The caller is not the configured administrator (or none is configured).
    Unauthorized,
    /// `init` was called a second time, or the admin was already set.
    AlreadyInitialized,
    /// A write or registry-scoped query named an unknown asset.
    AssetNotRegistered,
    /// A mutating operation ran before a successful `init`.
    NotInitialized,
}

} // verus!
