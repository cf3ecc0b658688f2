//! The scores: a whale score with fixed weights, the same score with weights of the
//! caller's choosing, and the confidence that a wallet trades on inside knowledge.
//!
//! A score is a sum of capped terms, cut off at 100 and rounded down to whole points.
//! The terms are fractions. To state them exactly, the specifications count in parts
//! of a point: a profile of `n` purchases divides the point into `n * FIFTY_SOL`
//! parts, of which every term of the whale score is a whole number, and into thirty
//! billion times as many for the weighted terms.

use crate::bounds::{
    lemma_product_bounds, lemma_product_grows, lemma_quotient_bound, lemma_whole_quotient,
};
use crate::types::{StatsView, WalletStats, LAMPORTS_PER_SOL, RATE_ONE};
use crate::wide::Wide;
use vstd::arithmetic::div_mod::{
    lemma_div_multiples_vanish_quotient, lemma_fundamental_div_mod_converse,
};
use vstd::prelude::*;

verus! {

/// Fifty SOL in lamports: the mean purchase size from which the size terms are at
/// their caps.
pub const FIFTY_SOL: u64 = 50_000_000_000;

/// The smaller of two numbers.
pub open spec fn smaller(a: int, b: int) -> int {
    if a <= b {
        a
    } else {
        b
    }
}

/// The number of parts into which the scores of a profile of `count` purchases divide
/// one point.
pub open spec fn score_unit(count: nat) -> int {
    count * FIFTY_SOL
}

/// `min(20, 20 * early / count)` points, in parts: the share of early entries.
pub open spec fn early_share_parts(s: StatsView) -> int {
    20 * smaller(s.early_entry_count as int, s.interaction_count as int) * FIFTY_SOL
}

/// `min(20, 2 * early)` points, in parts: the number of early entries.
pub open spec fn early_count_parts(s: StatsView) -> int {
    smaller(20, 2 * (s.early_entry_count as int)) * s.interaction_count * FIFTY_SOL
}

/// `min(20, 20 * mean / 50 SOL)` points, in parts: the mean purchase size.
pub open spec fn size_parts(s: StatsView) -> int {
    20 * (smaller(s.average_entry_size as int, FIFTY_SOL as int) * s.interaction_count)
}

/// `min(10, 10 * volume / 500 SOL)` points, in parts: the total volume.
pub open spec fn volume_parts(s: StatsView) -> int {
    smaller(s.total_volume_sol as int, 10 * FIFTY_SOL) * s.interaction_count
}

/// `min(20, 20 * count / 50)` points, in parts: the number of purchases.
pub open spec fn repetition_parts(s: StatsView) -> int {
    20 * (smaller(s.interaction_count as int, 50) * s.interaction_count) * LAMPORTS_PER_SOL
}

/// `10 * winrate` points, in parts: the winrate proxy. This term has no cap of its own.
pub open spec fn profit_parts(s: StatsView) -> int {
    500 * ((s.winrate_proxy as int) * s.interaction_count)
}

/// The six terms of the whale score together, in parts.
pub open spec fn whale_parts(s: StatsView) -> int {
    early_share_parts(s) + early_count_parts(s) + size_parts(s) + volume_parts(s)
        + repetition_parts(s) + profit_parts(s)
}

/// The whale score of a profile: 0 without purchases, else the terms together, at
/// most 100, rounded down to whole points.
pub open spec fn whale_score(s: StatsView) -> int {
    if s.interaction_count == 0 {
        0
    } else {
        smaller(100 * score_unit(s.interaction_count), whale_parts(s)) / score_unit(
            s.interaction_count,
        )
    }
}

/// A number of parts that is `k` whole points and a rest, cut off at 100 points and
/// rounded down, is `k` points or 100.
proof fn lemma_capped_floor(parts: int, unit: int, k: int, rest: int)
    requires
        0 < unit,
        0 <= k,
        0 <= rest < unit,
        parts == k * unit + rest,
    ensures
        smaller(100 * unit, parts) / unit == smaller(100, k),
{
    if k >= 100 {
        lemma_product_grows(k, unit, 100);
        lemma_whole_quotient(unit, 100);
    } else {
        lemma_product_grows(99, unit, k);
        assert(k * unit + rest < 100 * unit) by (nonlinear_arith)
            requires
                k * unit <= 99 * unit,
                rest < unit,
        ;
        lemma_fundamental_div_mod_converse(parts, unit, k, rest);
    }
}

fn least(a: u128, b: u128) -> (m: u128)
    ensures
        m == smaller(a as int, b as int),
{
    if a <= b {
        a
    } else {
        b
    }
}

/// Computes the [`whale_score`] of a profile.
pub fn calculate_whale_score(stats: &WalletStats) -> (score: u8)
    ensures
        score == whale_score(stats@),
        score <= 100,
        stats.interaction_count == 0 ==> score == 0,
{
    if stats.interaction_count == 0 {
        return 0;
    }
    let n: u128 = stats.interaction_count as u128;
    let e: u128 = stats.early_entry_count as u128;
    let a: u128 = stats.average_entry_size as u128;
    let v: u128 = stats.total_volume_sol;
    let w: u128 = stats.winrate_proxy as u128;
    let fifty: u128 = FIFTY_SOL as u128;
    let unit: u128 = n * fifty;
    let ghost s = stats@;
    proof {
        lemma_product_bounds(smaller(20, 2 * e), n as int, 20, u64::MAX as int);
        lemma_product_bounds(smaller(a as int, fifty as int), n as int, fifty as int, u64::MAX as int);
        lemma_product_bounds(smaller(v as int, 10 * fifty), n as int, 10 * fifty, u64::MAX as int);
        lemma_product_bounds(smaller(n as int, 50), n as int, 50, u64::MAX as int);
        lemma_product_bounds(w as int, n as int, u64::MAX as int, u64::MAX as int);
    }
    if w >= 10 * (RATE_ONE as u128) {
        proof {
            lemma_product_grows(w as int, n as int, 10 * RATE_ONE);
            assert(profit_parts(s) >= 100 * score_unit(s.interaction_count));
            assert(whale_parts(s) >= 100 * score_unit(s.interaction_count));
            lemma_whole_quotient(unit as int, 100);
        }
        return 100;
    }
    proof {
        lemma_product_bounds(w as int, n as int, 10 * RATE_ONE, u64::MAX as int);
    }
    let share: u128 = 20 * least(e, n) * fifty;
    let entries: u128 = least(20, 2 * e) * n * fifty;
    let size: u128 = 20 * (least(a, fifty) * n);
    let volume: u128 = least(v, 10 * fifty) * n;
    let repetition: u128 = 20 * (least(n, 50) * n) * (LAMPORTS_PER_SOL as u128);
    let profit: u128 = 500 * (w * n);
    let parts: u128 = share + entries + size + volume + repetition + profit;
    let capped: u128 = least(100 * unit, parts);
    proof {
        assert(parts == whale_parts(s));
        lemma_quotient_bound(capped as int, unit as int, 100);
    }
    (capped / unit) as u8
}

/// `40 * early / total` points where the early entries reach `min_repetitions`, else
/// nothing; in parts.
pub open spec fn insider_entry_parts(early: nat, min_threshold: nat, min_repetitions: nat) -> int {
    if early >= min_repetitions {
        40 * (early as int) * (min_threshold as int)
    } else {
        0
    }
}

/// 30 points where the mean size reaches the threshold, below it
/// `30 * size / threshold`; in parts.
pub open spec fn insider_size_parts(total: nat, size: nat, min_threshold: nat) -> int {
    if size >= min_threshold {
        30 * insider_unit(total, min_threshold)
    } else {
        30 * (size as int) * total
    }
}

/// 20 points where the mean size reaches twice the threshold, below it
/// `min(20, 20 * size / (2 * threshold))`; in parts.
pub open spec fn insider_volume_parts(total: nat, size: nat, min_threshold: nat) -> int {
    if size >= 2 * min_threshold {
        20 * insider_unit(total, min_threshold)
    } else {
        smaller(20 * insider_unit(total, min_threshold), 10 * (size as int) * total)
    }
}

/// The number of parts into which the insider confidence divides one point.
pub open spec fn insider_unit(total: nat, min_threshold: nat) -> int {
    total * (min_threshold as int)
}

/// The confidence, from 0 to 100, that a wallet with `early` early entries among
/// `total` purchases of mean size `size` trades on inside knowledge: 0 without
/// purchases, else the three terms and a flat 10 points, at most 100, rounded down.
/// With purchases the formula divides by the threshold, and has no meaning for a
/// threshold of zero.
pub open spec fn insider_confidence(
    early: nat,
    total: nat,
    size: nat,
    min_threshold: nat,
    min_repetitions: nat,
) -> int {
    if total == 0 {
        0
    } else {
        let unit = insider_unit(total, min_threshold);
        let parts = insider_entry_parts(early, min_threshold, min_repetitions) + insider_size_parts(
            total,
            size,
            min_threshold,
        ) + insider_volume_parts(total, size, min_threshold) + 10 * unit;
        smaller(100 * unit, parts) / unit
    }
}

proof fn lemma_insider_split(
    n: int,
    q: int,
    p: int,
    r: int,
    xi: int,
    xr: int,
    yi: int,
    yr: int,
    carry: int,
)
    by (nonlinear_arith)
    requires
        0 < n,
        0 < q,
        p == xi * n + xr,
        0 <= xr < n,
        r == yi * q + yr,
        0 <= yr < q,
        0 <= xi,
        0 <= yi,
        carry == 1 <==> xr * q + yr * n >= n * q,
        carry == 0 || carry == 1,
    ensures
        p * q + r * n + 10 * (n * q) == (10 + xi + yi + carry) * (n * q) + (xr * q + yr * n - carry
            * (n * q)),
        0 <= xr * q + yr * n - carry * (n * q) < n * q,
{
}

/// Computes the [`insider_confidence`]. Sizes and the threshold are in lamports. The
/// threshold is not zero, unless there are no purchases.
pub fn calculate_insider_confidence(
    early_entry_count: u64,
    total_interactions: u64,
    avg_buy_size: u64,
    min_threshold: u64,
    min_repetitions: u64,
) -> (score: u8)
    requires
        total_interactions == 0 || min_threshold > 0,
    ensures
        score == insider_confidence(
            early_entry_count as nat,
            total_interactions as nat,
            avg_buy_size as nat,
            min_threshold as nat,
            min_repetitions as nat,
        ),
        score <= 100,
        total_interactions == 0 ==> score == 0,
{
    if total_interactions == 0 {
        return 0;
    }
    let n: u128 = total_interactions as u128;
    let a: u128 = avg_buy_size as u128;
    let q: u128 = min_threshold as u128;
    let ghost unit: int = n * q;
    let ghost entry = insider_entry_parts(
        early_entry_count as nat,
        min_threshold as nat,
        min_repetitions as nat,
    );
    let ghost size = insider_size_parts(
        total_interactions as nat,
        avg_buy_size as nat,
        min_threshold as nat,
    );
    let ghost volume = insider_volume_parts(
        total_interactions as nat,
        avg_buy_size as nat,
        min_threshold as nat,
    );
    proof {
        lemma_product_bounds(n as int, q as int, u64::MAX as int, u64::MAX as int);
        lemma_product_bounds(a as int, n as int, u64::MAX as int, u64::MAX as int);
        assert(0 < n * q) by (nonlinear_arith)
            requires
                0 < n,
                0 < q,
        ;
    }
    // The share of early entries, as a fraction of `n`.
    let p: u128 = if early_entry_count >= min_repetitions {
        40 * (early_entry_count as u128)
    } else {
        0
    };
    // The two size terms together, as a fraction of `q`.
    let r: u128 = if a >= 2 * (min_threshold as u128) {
        50 * q
    } else if a >= min_threshold as u128 {
        30 * q + 10 * a
    } else {
        40 * a
    };
    proof {
        assert(entry == p * q);
        assert(size + volume == r * n) by {
            if a >= 2 * min_threshold {
                assert(50 * q * n == 30 * (n * q) + 20 * (n * q)) by (nonlinear_arith);
            } else {
                assert(10 * a * n <= 20 * (n * q)) by (nonlinear_arith)
                    requires
                        a <= 2 * q,
                        0 <= n,
                ;
                if a >= min_threshold {
                    assert((30 * q + 10 * a) * n == 30 * (n * q) + 10 * a * n) by (nonlinear_arith);
                } else {
                    assert(40 * a * n == 30 * a * n + 10 * a * n) by (nonlinear_arith);
                }
            }
        }
        assert(0 <= r * n) by (nonlinear_arith)
            requires
                0 <= r,
                0 <= n,
        ;
    }
    if p >= 90 * n {
        proof {
            lemma_product_grows(p as int, q as int, 90 * n);
            assert(90 * n * q == 90 * (n * q)) by (nonlinear_arith);
            let parts = entry + size + volume + 10 * unit;
            assert(parts >= 100 * unit);
            lemma_whole_quotient(unit, 100);
        }
        return 100;
    }
    let xi: u128 = p / n;
    let xr: u128 = p % n;
    let yi: u128 = r / q;
    let yr: u128 = r % q;
    proof {
        lemma_quotient_bound(p as int, n as int, 90);
        lemma_quotient_bound(r as int, q as int, 50);
        lemma_product_bounds(xr as int, q as int, n as int, q as int);
        lemma_product_bounds(yr as int, n as int, q as int, n as int);
        assert(q * n == n * q) by (nonlinear_arith);
        assert(p == xi * n + xr) by (nonlinear_arith)
            requires
                xi == p / n,
                xr == p % n,
                0 < n,
        ;
        assert(r == yi * q + yr) by (nonlinear_arith)
            requires
                yi == r / q,
                yr == r % q,
                0 < q,
        ;
    }
    let whole: u128 = n * q;
    let from_entries: u128 = xr * q;
    let from_sizes: u128 = yr * n;
    let carry: u128 = if from_entries >= whole - from_sizes {
        1
    } else {
        0
    };
    let points: u128 = 10 + xi + yi + carry;
    proof {
        lemma_insider_split(
            n as int,
            q as int,
            p as int,
            r as int,
            xi as int,
            xr as int,
            yi as int,
            yr as int,
            carry as int,
        );
        let parts = entry + size + volume + 10 * unit;
        lemma_capped_floor(
            parts,
            unit,
            points as int,
            xr * q + yr * n - carry * (n * q),
        );
    }
    least(100, points) as u8
}

/// A scorer of the whale score's shape whose four weights the caller chooses. A
/// weight is the most that its component can give, in billionths of a point. The
/// weight of the early entries goes in equal halves to their share and to their
/// number; of the weight of the size, two thirds go to the mean size and one third to
/// the volume.
#[derive(Debug, Clone, Copy, PartialEq, Eq, Structural)]
pub struct DynamicScorer {
    /// The most that the early entries can give.
    pub early_entry_weight: u64,
    /// The most that the purchase sizes can give.
    pub buy_size_weight: u64,
    /// The most that the number of purchases can give.
    pub repetition_weight: u64,
    /// What a winrate proxy of 1.0 gives.
    pub profit_weight: u64,
}

/// The weights that a scorer has by default: 40, 30, 20 and 10 points.
pub open spec fn default_weights() -> DynamicScorer {
    DynamicScorer {
        early_entry_weight: 40_000_000_000,
        buy_size_weight: 30_000_000_000,
        repetition_weight: 20_000_000_000,
        profit_weight: 10_000_000_000,
    }
}

/// The number of parts into which the weighted score divides one point: thirty
/// billion for each part of the whale score, to hold the billionths of the weights,
/// their halves and their thirds.
pub open spec fn weighted_unit(count: nat) -> int {
    30_000_000_000 * score_unit(count)
}

/// `min(w / 2, w / 2 * early / count)` points for the weight `w` of the early
/// entries, in parts: their share.
pub open spec fn weighted_share_parts(weights: DynamicScorer, s: StatsView) -> int {
    weights.early_entry_weight * smaller(s.early_entry_count as int, s.interaction_count as int)
        * 750_000_000_000
}

/// `min(w / 2, w / 20 * early)` points for the weight `w` of the early entries, in
/// parts: their number.
pub open spec fn weighted_count_parts(weights: DynamicScorer, s: StatsView) -> int {
    weights.early_entry_weight * smaller(s.early_entry_count as int, 10) * s.interaction_count
        * 75_000_000_000
}

/// `min(2 * w / 3, 2 * w / 3 * mean / 50 SOL)` points for the weight `w` of the
/// size, in parts: the mean purchase size.
pub open spec fn weighted_size_parts(weights: DynamicScorer, s: StatsView) -> int {
    weights.buy_size_weight * smaller(s.average_entry_size as int, FIFTY_SOL as int)
        * s.interaction_count * 20
}

/// `min(w / 3, w / 3 * volume / 500 SOL)` points for the weight `w` of the size, in
/// parts: the total volume.
pub open spec fn weighted_volume_parts(weights: DynamicScorer, s: StatsView) -> int {
    weights.buy_size_weight * smaller(s.total_volume_sol as int, 10 * FIFTY_SOL)
        * s.interaction_count
}

/// `min(w, w * count / 50)` points for the weight `w` of the repetition, in parts.
pub open spec fn weighted_repetition_parts(weights: DynamicScorer, s: StatsView) -> int {
    weights.repetition_weight * smaller(s.interaction_count as int, 50) * s.interaction_count
        * 30_000_000_000
}

/// `w * winrate` points for the weight `w` of the profit, in parts. This term has no
/// cap of its own.
pub open spec fn weighted_profit_parts(weights: DynamicScorer, s: StatsView) -> int {
    weights.profit_weight * (s.winrate_proxy as int) * s.interaction_count * 1500
}

/// The six weighted terms together, in parts.
pub open spec fn dynamic_parts(weights: DynamicScorer, s: StatsView) -> int {
    weighted_share_parts(weights, s) + weighted_count_parts(weights, s) + weighted_size_parts(
        weights,
        s,
    ) + weighted_volume_parts(weights, s) + weighted_repetition_parts(weights, s)
        + weighted_profit_parts(weights, s)
}

/// The score of a profile under `weights`: 0 without purchases, else the six terms
/// together, at most 100, rounded down to whole points.
pub open spec fn dynamic_score(weights: DynamicScorer, s: StatsView) -> int {
    if s.interaction_count == 0 {
        0
    } else {
        smaller(100 * weighted_unit(s.interaction_count), dynamic_parts(weights, s))
            / weighted_unit(s.interaction_count)
    }
}

impl Default for DynamicScorer {
    fn default() -> (weights: Self)
        ensures
            weights == default_weights(),
    {
        DynamicScorer {
            early_entry_weight: 40_000_000_000,
            buy_size_weight: 30_000_000_000,
            repetition_weight: 20_000_000_000,
            profit_weight: 10_000_000_000,
        }
    }
}

proof fn lemma_weighted_terms_not_negative(weights: DynamicScorer, s: StatsView)
    ensures
        0 <= weighted_share_parts(weights, s),
        0 <= weighted_count_parts(weights, s),
        0 <= weighted_size_parts(weights, s),
        0 <= weighted_volume_parts(weights, s),
        0 <= weighted_repetition_parts(weights, s),
        0 <= weighted_profit_parts(weights, s),
{
    let n = s.interaction_count as int;
    let share = smaller(s.early_entry_count as int, n);
    let count = smaller(s.early_entry_count as int, 10);
    let size = smaller(s.average_entry_size as int, FIFTY_SOL as int);
    let volume = smaller(s.total_volume_sol as int, 10 * FIFTY_SOL);
    let repetition = smaller(n, 50);
    let w = s.winrate_proxy as int;
    assert(0 <= weights.early_entry_weight * share) by (nonlinear_arith)
        requires
            0 <= share,
    ;
    assert(0 <= weights.early_entry_weight * count * n) by (nonlinear_arith)
        requires
            0 <= count,
            0 <= n,
    ;
    assert(0 <= weights.buy_size_weight * size * n) by (nonlinear_arith)
        requires
            0 <= size,
            0 <= n,
    ;
    assert(0 <= weights.buy_size_weight * volume * n) by (nonlinear_arith)
        requires
            0 <= volume,
            0 <= n,
    ;
    assert(0 <= weights.repetition_weight * repetition * n) by (nonlinear_arith)
        requires
            0 <= repetition,
            0 <= n,
    ;
    assert(0 <= weights.profit_weight * w * n) by (nonlinear_arith)
        requires
            0 <= w,
            0 <= n,
    ;
}

/// `weight * measure * count`, which takes up to 256 bits.
fn weighed(weight: u64, measure: u128, count: u64) -> (parts: Wide)
    ensures
        parts.value() == weight * measure * count,
        parts.value() <= 0x1_0000_0000_0000_0000 * 0x1_0000_0000_0000_0000_0000_0000_0000_0000int
            * 0x1_0000_0000_0000_0000,
{
    proof {
        lemma_product_bounds(
            weight as int,
            measure as int,
            0x1_0000_0000_0000_0000,
            0x1_0000_0000_0000_0000_0000_0000_0000_0000int,
        );
        lemma_product_bounds(
            weight * measure,
            count as int,
            0x1_0000_0000_0000_0000int * 0x1_0000_0000_0000_0000_0000_0000_0000_0000int,
            0x1_0000_0000_0000_0000,
        );
    }
    Wide::product(weight as u128, measure).times(count)
}

impl DynamicScorer {
    /// Computes the [`dynamic_score`] of a profile under these weights.
    pub fn calculate_score(&self, stats: &WalletStats) -> (score: u8)
        ensures
            score == dynamic_score(*self, stats@),
            score <= 100,
            stats.interaction_count == 0 ==> score == 0,
    {
        if stats.interaction_count == 0 {
            return 0;
        }
        let n: u64 = stats.interaction_count;
        let e: u128 = stats.early_entry_count as u128;
        let a: u128 = stats.average_entry_size as u128;
        let v: u128 = stats.total_volume_sol;
        let w: u128 = stats.winrate_proxy as u128;
        let fifty: u128 = FIFTY_SOL as u128;
        let ghost s = stats@;
        let ghost u: int = weighted_unit(s.interaction_count);
        let ghost p: int = dynamic_parts(*self, s);
        proof {
            lemma_product_bounds(
                self.early_entry_weight as int,
                smaller(e as int, n as int),
                0x1_0000_0000_0000_0000,
                0x1_0000_0000_0000_0000,
            );
        }
        let share = Wide::product(self.early_entry_weight as u128, least(e, n as u128)).times(
            750_000_000_000,
        );
        let count = weighed(self.early_entry_weight, least(e, 10), n).times(75_000_000_000);
        let size = weighed(self.buy_size_weight, least(a, fifty), n).times(20);
        let volume = weighed(self.buy_size_weight, least(v, 10 * fifty), n);
        let repetition = weighed(self.repetition_weight, least(n as u128, 50), n).times(
            30_000_000_000,
        );
        let profit = weighed(self.profit_weight, w, n).times(1500);
        let parts = share.plus(&count).plus(&size).plus(&volume).plus(&repetition).plus(&profit);
        let unit = Wide::product(n as u128, 1_500_000_000_000_000_000_000);
        assert(parts.value() == p);
        assert(unit.value() == u);
        let mut level: u8 = 100;
        while level > 0
            invariant
                level <= 100,
                s == stats@,
                s.interaction_count > 0,
                u == weighted_unit(s.interaction_count),
                p == dynamic_parts(*self, s),
                0 < u <= 0x1_0000_0000_0000_0000 * 1_500_000_000_000_000_000_000,
                unit.value() == u,
                parts.value() == p,
                level < 100 ==> p < u * (level + 1),
            decreases level,
        {
            proof {
                lemma_product_bounds(
                    u,
                    level as int,
                    0x1_0000_0000_0000_0000int * 1_500_000_000_000_000_000_000int,
                    100,
                );
            }
            let target = unit.times(level as u64);
            if target.at_most(&parts) {
                proof {
                    assert(u * level == level * u) by (nonlinear_arith);
                    if level == 100 {
                        lemma_whole_quotient(u, 100);
                    } else {
                        assert(u * (level + 1) == u * level + u) by (nonlinear_arith);
                        lemma_capped_floor(p, u, level as int, p - level * u);
                    }
                }
                return level;
            }
            level = level - 1;
        }
        proof {
            assert(u * 1 == u);
            lemma_capped_floor(p, u, 0, p);
        }
        0
    }
}

/// With the default weights the dynamic score is the whale score, for every profile.
pub proof fn lemma_default_weights_give_whale_score(s: StatsView)
    ensures
        dynamic_score(default_weights(), s) == whale_score(s),
{
    if s.interaction_count > 0 {
        let d = default_weights();
        let n = s.interaction_count as int;
        let count = smaller(s.early_entry_count as int, 10);
        let size = smaller(s.average_entry_size as int, FIFTY_SOL as int);
        let volume = smaller(s.total_volume_sol as int, 10 * FIFTY_SOL);
        let repetition = smaller(n, 50);
        let w = s.winrate_proxy as int;
        let c: int = 30_000_000_000;
        let u = score_unit(s.interaction_count);
        assert(weighted_share_parts(d, s) == c * early_share_parts(s));
        assert(weighted_count_parts(d, s) == c * early_count_parts(s)) by {
            assert(smaller(20, 2 * (s.early_entry_count as int)) == 2 * count);
            assert(40_000_000_000 * count * n == 40_000_000_000 * (count * n))
                by (nonlinear_arith);
            assert((2 * count) * n == 2 * (count * n)) by (nonlinear_arith);
        }
        assert(weighted_size_parts(d, s) == c * size_parts(s)) by {
            assert(30_000_000_000 * size * n == 30_000_000_000 * (size * n)) by (nonlinear_arith);
        }
        assert(weighted_volume_parts(d, s) == c * volume_parts(s)) by {
            assert(30_000_000_000 * volume * n == 30_000_000_000 * (volume * n))
                by (nonlinear_arith);
        }
        assert(weighted_repetition_parts(d, s) == c * repetition_parts(s)) by {
            assert(20_000_000_000 * repetition * n == 20_000_000_000 * (repetition * n))
                by (nonlinear_arith);
        }
        assert(weighted_profit_parts(d, s) == c * profit_parts(s)) by {
            assert(10_000_000_000 * w * n == 10_000_000_000 * (w * n)) by (nonlinear_arith);
        }
        assert(dynamic_parts(d, s) == c * whale_parts(s));
        assert(weighted_unit(s.interaction_count) == c * u);
        lemma_whale_terms_not_negative(s);
        let capped = smaller(100 * u, whale_parts(s));
        assert(smaller(100 * (c * u), c * whale_parts(s)) == c * capped);
        lemma_div_multiples_vanish_quotient(c, capped, u);
    }
}

/// A wallet without purchases scores 0 on every scale.
pub proof fn lemma_no_purchases_score_nothing(
    s: StatsView,
    weights: DynamicScorer,
    early: nat,
    size: nat,
    min_threshold: nat,
    min_repetitions: nat,
)
    requires
        s.interaction_count == 0,
    ensures
        whale_score(s) == 0,
        dynamic_score(weights, s) == 0,
        insider_confidence(early, 0, size, min_threshold, min_repetitions) == 0,
{
}

proof fn lemma_capped_quotient_in_range(parts: int, unit: int)
    requires
        0 < unit,
        0 <= parts,
    ensures
        0 <= smaller(100 * unit, parts) / unit <= 100,
{
    lemma_quotient_bound(smaller(100 * unit, parts), unit, 100);
}

proof fn lemma_whale_terms_not_negative(s: StatsView)
    ensures
        0 <= early_share_parts(s),
        0 <= early_count_parts(s),
        0 <= size_parts(s),
        0 <= volume_parts(s),
        0 <= repetition_parts(s),
        0 <= profit_parts(s),
{
    let n = s.interaction_count as int;
    lemma_product_bounds(smaller(20, 2 * (s.early_entry_count as int)), n, 20, n);
    lemma_product_bounds(smaller(s.average_entry_size as int, FIFTY_SOL as int), n, FIFTY_SOL as int, n);
    lemma_product_bounds(smaller(s.total_volume_sol as int, 10 * FIFTY_SOL), n, 10 * FIFTY_SOL, n);
    lemma_product_bounds(smaller(n, 50), n, 50, n);
    lemma_product_bounds(s.winrate_proxy as int, n, s.winrate_proxy as int, n);
}

/// Every score lies between 0 and 100, whatever the profile, the weights and the
/// thresholds that the scores are defined for.
pub proof fn lemma_scores_are_in_range(
    s: StatsView,
    weights: DynamicScorer,
    early: nat,
    total: nat,
    size: nat,
    min_threshold: nat,
    min_repetitions: nat,
)
    requires
        total == 0 || min_threshold > 0,
    ensures
        0 <= whale_score(s) <= 100,
        0 <= dynamic_score(weights, s) <= 100,
        0 <= insider_confidence(early, total, size, min_threshold, min_repetitions) <= 100,
{
    if s.interaction_count > 0 {
        lemma_whale_terms_not_negative(s);
        lemma_weighted_terms_not_negative(weights, s);
        lemma_capped_quotient_in_range(whale_parts(s), score_unit(s.interaction_count));
        lemma_capped_quotient_in_range(
            dynamic_parts(weights, s),
            weighted_unit(s.interaction_count),
        );
    }
    if total > 0 {
        let q = min_threshold as int;
        let unit = insider_unit(total, min_threshold);
        lemma_product_bounds(total as int, q, total as int, q);
        assert(0 < unit) by (nonlinear_arith)
            requires
                unit == total * q,
                0 < total,
                0 < q,
        ;
        lemma_product_bounds(early as int, q, early as int, q);
        lemma_product_bounds(size as int, total as int, size as int, total as int);
        let parts = insider_entry_parts(early, min_threshold, min_repetitions) + insider_size_parts(
            total,
            size,
            min_threshold,
        ) + insider_volume_parts(total, size, min_threshold) + 10 * unit;
        assert(0 <= insider_entry_parts(early, min_threshold, min_repetitions)) by {
            assert(40 * (early as int) * q == 40 * (early * q)) by (nonlinear_arith);
        }
        assert(0 <= insider_size_parts(total, size, min_threshold)) by {
            assert(30 * (size as int) * total == 30 * (size * total)) by (nonlinear_arith);
        }
        assert(0 <= insider_volume_parts(total, size, min_threshold)) by {
            assert(10 * (size as int) * total == 10 * (size * total)) by (nonlinear_arith);
        }
        lemma_capped_quotient_in_range(parts, unit);
    }
}

} // verus!
