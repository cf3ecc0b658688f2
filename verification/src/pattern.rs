//! Telling a deliberate buying pattern from a wallet's purchases, and measuring how
//! steady their sizes are.

use crate::aggregate::{early_entries, tally, total_amount};
use crate::bounds::lemma_product_bounds;
use crate::types::{interaction_views, InteractionView, TokenInteraction};
use crate::wide::Wide;
use vstd::prelude::*;

verus! {

/// The full consistency: 100 points, in billionths of a point.
pub const FULL_CONSISTENCY: u64 = 100_000_000_000;

/// What a wallet must show to count as following a pattern.
#[derive(Debug, Clone, Copy, PartialEq, Eq, Structural)]
pub struct PatternDetector {
    /// The least number of early entries.
    pub min_early_entries: u64,
    /// The least mean purchase size, in lamports.
    pub min_avg_buy_size: u64,
    /// The share of the full consistency from which a wallet counts as steady, in
    /// billionths. Neither operation reads it; it travels with the other two.
    pub consistency_threshold: u64,
}

/// A log shows a pattern when it is not empty, holds at least `min_early` purchases
/// of which at least `min_early` are early entries, and its mean purchase size is at
/// least `min_size`.
pub open spec fn shows_pattern(min_early: nat, min_size: nat, s: Seq<InteractionView>) -> bool {
    &&& s.len() > 0
    &&& s.len() >= min_early
    &&& early_entries(s) >= min_early
    &&& total_amount(s) >= min_size * s.len()
}

/// Sum of the squares of the purchase sizes of `s`.
pub open spec fn square_sum(s: Seq<InteractionView>) -> nat
    decreases s.len(),
{
    if s.len() == 0 {
        0
    } else {
        square_sum(s.drop_last()) + s.last().sol_amount * s.last().sol_amount
    }
}

/// The variance of the purchase sizes of `s`, times the square of their number.
pub open spec fn spread(s: Seq<InteractionView>) -> int {
    s.len() * square_sum(s) - total_amount(s) * total_amount(s)
}

/// The coefficient of variation of the sizes of `s` (their standard deviation over
/// their mean) is at most `1 - level / 100` for a level in billionths of a point. Both
/// sides are squared and cleared of their denominators.
pub open spec fn varies_within(s: Seq<InteractionView>, level: int) -> bool {
    10_000_000_000_000_000_000_000 * spread(s) <= (100_000_000_000 - level) * (100_000_000_000
        - level) * (total_amount(s) * total_amount(s))
}

/// The highest level from `from` down to 1 within which the sizes of `s` vary, or 0.
pub open spec fn steadiest_level(s: Seq<InteractionView>, from: int) -> int
    decreases from,
{
    if from <= 0 {
        0
    } else if varies_within(s, from) {
        from
    } else {
        steadiest_level(s, from - 1)
    }
}

/// How steady the purchase sizes of `s` are, from 0 to 100 points, in billionths of a
/// point: `100 * (1 - cv)` rounded down, where `cv` is their coefficient of
/// variation, or 0 where that exceeds 1. Fewer than three purchases give 0. Where
/// every size is zero there is no variation, and the score is 100 points.
pub open spec fn consistency(s: Seq<InteractionView>) -> int {
    if s.len() < 3 {
        0
    } else if total_amount(s) == 0 {
        FULL_CONSISTENCY as int
    } else {
        steadiest_level(s, FULL_CONSISTENCY as int)
    }
}

/// A level within which the sizes vary holds every lower level too.
proof fn lemma_lower_levels_hold(s: Seq<InteractionView>, low: int, high: int)
    requires
        0 <= low <= high <= 100_000_000_000,
        varies_within(s, high),
    ensures
        varies_within(s, low),
{
    let tt = (total_amount(s) * total_amount(s)) as int;
    let far = 100_000_000_000 - low;
    let near = 100_000_000_000 - high;
    assert(near * near <= far * far) by (nonlinear_arith)
        requires
            0 <= near <= far,
    ;
    assert((near * near) * tt <= (far * far) * tt) by (nonlinear_arith)
        requires
            near * near <= far * far,
            0 <= tt,
    ;
}

/// The level that holds while the next one does not is the steadiest.
proof fn lemma_steadiest_is_last_that_holds(s: Seq<InteractionView>, from: int, level: int)
    requires
        0 <= level <= from <= 100_000_000_000,
        level == 0 || varies_within(s, level),
        level == 100_000_000_000 || !varies_within(s, level + 1),
    ensures
        steadiest_level(s, from) == level,
    decreases from - level,
{
    if level < from {
        if varies_within(s, from) {
            lemma_lower_levels_hold(s, level + 1, from);
        }
        lemma_steadiest_is_last_that_holds(s, from - 1, level);
    }
}

impl PatternDetector {
    /// Decides whether a wallet's purchases show the pattern ([`shows_pattern`]).
    pub fn detect_pattern(&self, interactions: &[TokenInteraction]) -> (found: bool)
        ensures
            found == shows_pattern(
                self.min_early_entries as nat,
                self.min_avg_buy_size as nat,
                interaction_views(interactions@),
            ),
    {
        let n: usize = interactions.len();
        if n == 0 || (n as u64) < self.min_early_entries {
            return false;
        }
        let (total, early) = tally(interactions);
        if early < self.min_early_entries {
            return false;
        }
        proof {
            assert(self.min_avg_buy_size * n <= u64::MAX * u64::MAX) by (nonlinear_arith)
                requires
                    self.min_avg_buy_size <= u64::MAX,
                    n <= u64::MAX,
            ;
        }
        total >= (self.min_avg_buy_size as u128) * (n as u128)
    }

    /// Computes the [`consistency`] of a wallet's purchase sizes, in billionths of a
    /// point.
    pub fn consistency_score(&self, interactions: &[TokenInteraction]) -> (score: u64)
        ensures
            score == consistency(interaction_views(interactions@)),
            score <= FULL_CONSISTENCY,
    {
        let n: usize = interactions.len();
        if n < 3 {
            return 0;
        }
        let ghost v = interaction_views(interactions@);
        let (total, _) = tally(interactions);
        if total == 0 {
            return FULL_CONSISTENCY;
        }
        // The sum of the squares takes up to 192 bits.
        let mut squares = Wide::narrow(0);
        let mut i: usize = 0;
        while i < n
            invariant
                n == interactions.len(),
                i <= n,
                v == interaction_views(interactions@),
                squares.value() == square_sum(v.take(i as int)),
                squares.value() <= i * 0xffff_ffff_ffff_fffe_0000_0000_0000_0001,
            decreases n - i,
        {
            let x: u128 = interactions[i].sol_amount as u128;
            proof {
                assert(v.take(i + 1).drop_last() =~= v.take(i as int));
                assert(v.take(i + 1).last() == interactions@[i as int]@);
                lemma_product_bounds(x as int, x as int, u64::MAX as int, u64::MAX as int);
            }
            squares = squares.plus(&Wide::product(x, x));
            i = i + 1;
        }
        let ghost tt: int = (total_amount(v) * total_amount(v)) as int;
        let ghost weighted: int = (v.len() * square_sum(v)) as int;
        proof {
            assert(v.take(n as int) =~= v);
            lemma_product_bounds(
                squares.value(),
                n as int,
                0x1_0000_0000_0000_0000int * 0xffff_ffff_ffff_fffe_0000_0000_0000_0001int,
                0x1_0000_0000_0000_0000int,
            );
            lemma_product_bounds(total as int, total as int, u128::MAX as int, u128::MAX as int);
            assert(square_sum(v) * n == weighted) by (nonlinear_arith)
                requires
                    weighted == v.len() * square_sum(v),
                    n == v.len(),
            ;
        }
        // The variance and the square of the mean, both times the square of the
        // number of purchases and of the full score.
        let variation = squares.times(n as u64).times(FULL_CONSISTENCY).times(FULL_CONSISTENCY);
        let total_squared = Wide::product(total, total);
        let mean = total_squared.times(FULL_CONSISTENCY).times(FULL_CONSISTENCY);
        // The highest level that holds lies from `holds` up to below `fails`.
        let mut holds: u64 = 0;
        let mut fails: u64 = FULL_CONSISTENCY + 1;
        while fails - holds > 1
            invariant
                0 <= holds < fails <= FULL_CONSISTENCY + 1,
                3 <= interactions@.len(),
                v == interaction_views(interactions@),
                total_amount(v) != 0,
                tt == total_amount(v) * total_amount(v),
                weighted == v.len() * square_sum(v),
                0 <= tt <= u128::MAX * u128::MAX,
                total_squared.value() == tt,
                mean.value() == 10_000_000_000_000_000_000_000 * tt,
                variation.value() == 10_000_000_000_000_000_000_000 * weighted,
                holds == 0 || varies_within(v, holds as int),
                fails == FULL_CONSISTENCY + 1 || !varies_within(v, fails as int),
            decreases fails - holds,
        {
            let level: u64 = holds + (fails - holds) / 2;
            let slack: u64 = FULL_CONSISTENCY - level;
            proof {
                lemma_product_bounds(tt, slack as int, u128::MAX * u128::MAX, 100_000_000_000);
                lemma_product_bounds(
                    tt * slack,
                    slack as int,
                    u128::MAX * u128::MAX * 100_000_000_000,
                    100_000_000_000,
                );
            }
            let reach = total_squared.times(slack).times(slack).plus(&mean);
            proof {
                assert((slack * slack) * tt == (tt * slack) * slack) by (nonlinear_arith);
                assert(varies_within(v, level as int) <==> variation.value() <= reach.value());
            }
            if variation.at_most(&reach) {
                holds = level;
            } else {
                fails = level;
            }
        }
        proof {
            lemma_steadiest_is_last_that_holds(v, FULL_CONSISTENCY as int, holds as int);
        }
        holds
    }
}

/// Purchases that are all of one size are as steady as can be: from three of them
/// on, their consistency is 100 points.
pub proof fn lemma_equal_sizes_are_steady(s: Seq<InteractionView>)
    requires
        s.len() >= 3,
        forall|i: int| 0 <= i < s.len() ==> (#[trigger] s[i]).sol_amount == s[0].sol_amount,
    ensures
        consistency(s) == FULL_CONSISTENCY,
{
    lemma_equal_sizes_sums(s, s[0].sol_amount, s.len() as int);
    let c = s[0].sol_amount as int;
    let n = s.len() as int;
    assert(s.take(n) =~= s);
    assert(n * (n * (c * c)) - (n * c) * (n * c) == 0) by (nonlinear_arith);
    assert(spread(s) == 0);
    assert(varies_within(s, 100_000_000_000));
}

proof fn lemma_equal_sizes_sums(s: Seq<InteractionView>, c: nat, k: int)
    requires
        0 <= k <= s.len(),
        forall|i: int| 0 <= i < s.len() ==> (#[trigger] s[i]).sol_amount == c,
    ensures
        total_amount(s.take(k)) == k * c,
        square_sum(s.take(k)) == k * (c * c),
    decreases k,
{
    if k > 0 {
        lemma_equal_sizes_sums(s, c, k - 1);
        assert(s.take(k).drop_last() =~= s.take(k - 1));
        assert(s.take(k).last() == s[k - 1]);
        assert((k - 1) * c + c == k * c) by (nonlinear_arith);
        assert((k - 1) * (c * c) + c * c == k * (c * c)) by (nonlinear_arith);
    } else {
        assert(s.take(0).len() == 0);
    }
}

} // verus!
