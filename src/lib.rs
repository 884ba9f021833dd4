//! In-memory transaction pool of a validator node: admission, block-candidate
//! selection respecting per-account sequence contiguity, commit, expiry and a
//! gossip timeline.
pub mod accounts;
pub mod block;
pub mod core_mempool;
pub mod mock;
pub mod store;
pub mod testing;
pub mod types;
