//! The records that flow through the crate, and their mathematical views.

use vstd::prelude::*;

verus! {

/// Lamports in one SOL. Every amount in this crate is a whole number of lamports.
pub const LAMPORTS_PER_SOL: u64 = 1_000_000_000;

/// The rate 1.0. Every rate and threshold in this crate is a whole number of
/// billionths.
pub const RATE_ONE: u64 = 1_000_000_000;

/// One point of a score, for what is held in fractions of a point: a whole number of
/// billionths.
pub const ONE_POINT: u64 = 1_000_000_000;

/// One purchase of a token by a wallet.
#[derive(Debug)]
pub struct TokenInteraction {
    /// The wallet that bought.
    pub wallet_address: String,
    /// The token that was bought.
    pub token_mint: String,
    /// When the purchase happened, in seconds.
    pub block_time: u64,
    /// Size of the purchase, in lamports.
    pub sol_amount: u64,
    /// Whether the purchase fell into the early window after the token's creation.
    pub is_early_entry: bool,
}

/// What a [`TokenInteraction`] holds, as mathematical values.
pub struct InteractionView {
    pub wallet_address: Seq<char>,
    pub token_mint: Seq<char>,
    pub block_time: nat,
    pub sol_amount: nat,
    pub is_early_entry: bool,
}

impl View for TokenInteraction {
    type V = InteractionView;

    open spec fn view(&self) -> InteractionView {
        InteractionView {
            wallet_address: self.wallet_address@,
            token_mint: self.token_mint@,
            block_time: self.block_time as nat,
            sol_amount: self.sol_amount as nat,
            is_early_entry: self.is_early_entry,
        }
    }
}

impl Clone for TokenInteraction {
    fn clone(&self) -> (copy: Self)
        ensures
            copy@ == self@,
    {
        TokenInteraction {
            wallet_address: self.wallet_address.clone(),
            token_mint: self.token_mint.clone(),
            block_time: self.block_time,
            sol_amount: self.sol_amount,
            is_early_entry: self.is_early_entry,
        }
    }
}

/// The views of a sequence of interactions, in the same order.
pub open spec fn interaction_views(s: Seq<TokenInteraction>) -> Seq<InteractionView> {
    s.map_values(|t: TokenInteraction| t@)
}

/// The aggregate profile of one wallet.
#[derive(Debug)]
pub struct WalletStats {
    /// The wallet. The empty string stands for "no data".
    pub address: String,
    /// Sum of the purchase sizes, in lamports.
    pub total_volume_sol: u128,
    /// Number of purchases.
    pub interaction_count: u64,
    /// Mean purchase size in lamports, rounded down; 0 without purchases.
    pub average_entry_size: u64,
    /// Number of purchases that were early entries.
    pub early_entry_count: u64,
    /// A stand-in for profitability, in billionths.
    pub winrate_proxy: u64,
}

/// What a [`WalletStats`] holds, as mathematical values.
pub struct StatsView {
    pub address: Seq<char>,
    pub total_volume_sol: nat,
    pub interaction_count: nat,
    pub average_entry_size: nat,
    pub early_entry_count: nat,
    pub winrate_proxy: nat,
}

impl StatsView {
    /// The invariant of a profile: no more early entries than purchases, and a
    /// winrate proxy of at most 1.0.
    pub open spec fn wf(self) -> bool {
        &&& self.early_entry_count <= self.interaction_count
        &&& self.winrate_proxy <= RATE_ONE
    }
}

impl View for WalletStats {
    type V = StatsView;

    open spec fn view(&self) -> StatsView {
        StatsView {
            address: self.address@,
            total_volume_sol: self.total_volume_sol as nat,
            interaction_count: self.interaction_count as nat,
            average_entry_size: self.average_entry_size as nat,
            early_entry_count: self.early_entry_count as nat,
            winrate_proxy: self.winrate_proxy as nat,
        }
    }
}

impl Clone for WalletStats {
    fn clone(&self) -> (copy: Self)
        ensures
            copy@ == self@,
    {
        WalletStats {
            address: self.address.clone(),
            total_volume_sol: self.total_volume_sol,
            interaction_count: self.interaction_count,
            average_entry_size: self.average_entry_size,
            early_entry_count: self.early_entry_count,
            winrate_proxy: self.winrate_proxy,
        }
    }
}

/// The profiles of a list of wallets, in the same order.
pub open spec fn stats_of(entries: Seq<(String, WalletStats)>) -> Seq<StatsView> {
    entries.map_values(|e: (String, WalletStats)| e.1@)
}

/// The addresses under which a list of profiles is filed, in the same order.
pub open spec fn addresses_of(entries: Seq<(String, WalletStats)>) -> Seq<Seq<char>> {
    entries.map_values(|e: (String, WalletStats)| e.0@)
}

/// The views of a sequence of addresses.
pub open spec fn address_views(s: Seq<String>) -> Seq<Seq<char>> {
    s.map_values(|a: String| a@)
}

} // verus!
