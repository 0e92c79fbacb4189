//! Verified model of the Metaverse.Network staking pallet (era bookkeeping,
//! staking, unstaking, reward payout and claiming) together with the
//! benchmarked weight table of the NFT pallet.
pub mod balances;
pub mod hashing;
pub mod laws;
pub mod model;
pub mod pallet;
pub mod storage;
pub mod types;
pub mod weights;
