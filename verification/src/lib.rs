//! Replays the append-only event log of a layer-2 rollup's settlement
//! contract and rebuilds the authoritative account tree off-chain.
//!
//! The crate is organised leaf-first: `hash` gives the deterministic
//! accumulator, `ops` the rollup operations, `codec` their byte layout,
//! `tree` the account tree, `events` the confirmed-event bookkeeping, and
//! `driver` the scan/decode/apply/checkpoint state machine that ties them
//! together.

pub mod hash;
pub mod ops;
pub mod codec;
pub mod tree;
pub mod events;
pub mod driver;
