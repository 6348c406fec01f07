//! A marketplace ledger for non-fungible assets: sales with per-currency
//! prices, monotonic bids with automatic refunds, and a two-phase purchase
//! settlement that either disburses a validated payout or refunds the buyer.
pub mod currency;
pub mod sale;
pub mod registry;
pub mod market;
pub mod settlement;
pub mod bidding;
pub mod guarantees;
pub mod storage;
