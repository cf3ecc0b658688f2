//! Behavioural scores for wallets, computed from their token purchases.
//!
//! Every quantity is held in fixed point, so that each score is an exact
//! function of its inputs: amounts are whole lamports (one SOL is
//! `LAMPORTS_PER_SOL` of them), rates and thresholds are whole billionths
//! (`RATE_ONE` is 1.0), and so are the weights and the consistency, of a point
//! (`ONE_POINT`). The three scores are whole points from 0 to 100.

pub mod aggregate;
mod bounds;
pub mod cluster;
pub mod entry;
pub mod hash;
pub mod pattern;
pub mod scoring;
pub mod types;
mod wide;

pub use crate::aggregate::{calculate_batch_stats, group_by_wallet, process_interactions};
pub use crate::cluster::WalletClusterer;
pub use crate::entry::is_early_entry;
pub use crate::hash::{hash_wallet_address, to_hex};
pub use crate::pattern::{PatternDetector, FULL_CONSISTENCY};
pub use crate::scoring::{
    calculate_insider_confidence, calculate_whale_score, DynamicScorer, FIFTY_SOL,
};
pub use crate::types::{
    InteractionView, StatsView, TokenInteraction, WalletStats, LAMPORTS_PER_SOL, ONE_POINT,
    RATE_ONE,
};
