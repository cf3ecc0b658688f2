//! Grouping wallets whose profiles are alike.
//!
//! The wallets are taken in the order in which they are given. A wallet that no
//! earlier cluster took opens a cluster of its own, as its seed, and takes with it
//! every later wallet that no earlier cluster took and that is similar to it. A
//! wallet is only ever compared with a seed, never with the other members.

use crate::bounds::{lemma_negative_product, lemma_product_bounds};
use crate::types::{
    address_views, addresses_of, stats_of, StatsView, WalletStats, LAMPORTS_PER_SOL, RATE_ONE,
};
use crate::wide::Wide;
use vstd::prelude::*;

verus! {

/// Groups wallets by the similarity of their profiles.
#[derive(Debug, Clone, Copy, PartialEq, Eq, Structural)]
pub struct WalletClusterer {
    /// The least similarity that takes a wallet into a seed's cluster, in billionths.
    pub similarity_threshold: u64,
}

/// How far two numbers are apart.
pub open spec fn distance(a: int, b: int) -> int {
    if a <= b {
        b - a
    } else {
        a - b
    }
}

/// The two volumes and one SOL: what the distance of the volumes is measured against.
pub open spec fn volume_whole(a: StatsView, b: StatsView) -> int {
    a.total_volume_sol + b.total_volume_sol + LAMPORTS_PER_SOL
}

/// The two mean sizes and one SOL: what the distance of the mean sizes is measured
/// against.
pub open spec fn size_whole(a: StatsView, b: StatsView) -> int {
    a.average_entry_size + b.average_entry_size + LAMPORTS_PER_SOL
}

/// Two profiles are similar at `threshold` (in billionths) when the mean of three
/// likenesses reaches it:
/// of the volumes, `1 - |v1 - v2| / (v1 + v2 + 1 SOL)`;
/// of the mean sizes, `1 - |s1 - s2| / (s1 + s2 + 1 SOL)`;
/// of the winrate proxies, `1 - |w1 - w2|`.
/// The comparison is exact: it is stated with all denominators cleared.
pub open spec fn similar(a: StatsView, b: StatsView, threshold: nat) -> bool {
    let qv = volume_whole(a, b);
    let qs = size_whole(a, b);
    let pv = qv - distance(a.total_volume_sol as int, b.total_volume_sol as int);
    let ps = qs - distance(a.average_entry_size as int, b.average_entry_size as int);
    let pr = RATE_ONE - distance(a.winrate_proxy as int, b.winrate_proxy as int);
    (pv * qs) * RATE_ONE + (ps * qv) * RATE_ONE + pr * (qv * qs) >= 3 * threshold * (qv * qs)
}

/// Whether one of the first `k` wallets of `m` is a seed that takes wallet `j` into
/// its cluster.
pub open spec fn joins_before(m: Seq<StatsView>, threshold: nat, j: int, k: int) -> bool
    decreases j, k,
{
    if 0 < k <= j {
        joins_before(m, threshold, j, k - 1) || (!joins_before(m, threshold, k - 1, k - 1)
            && similar(m[k - 1], m[j], threshold))
    } else {
        false
    }
}

/// A wallet is a seed when no earlier seed takes it.
pub open spec fn is_seed(m: Seq<StatsView>, threshold: nat, i: int) -> bool {
    !joins_before(m, threshold, i, i)
}

/// Whether wallet `j` belongs to the cluster of the seed `i`: it is the seed, or it
/// comes later, is similar to the seed, and no seed before `i` takes it.
pub open spec fn in_cluster(m: Seq<StatsView>, threshold: nat, i: int, j: int) -> bool {
    j == i || (i < j && similar(m[i], m[j], threshold) && !joins_before(m, threshold, j, i))
}

/// The numbers from `low` up to `high`, without `high`.
pub open spec fn index_range(low: int, high: int) -> Seq<int> {
    Seq::new((high - low) as nat, |d: int| low + d)
}

/// [`is_seed`] as a test on a wallet's position.
pub open spec fn seed_test(m: Seq<StatsView>, threshold: nat) -> spec_fn(int) -> bool {
    |i: int| is_seed(m, threshold, i)
}

/// [`in_cluster`] of the seed `i` as a test on a wallet's position.
pub open spec fn member_test(m: Seq<StatsView>, threshold: nat, i: int) -> spec_fn(int) -> bool {
    |j: int| in_cluster(m, threshold, i, j)
}

/// The seeds among the first `k` wallets, in order.
pub open spec fn seeds_below(m: Seq<StatsView>, threshold: nat, k: int) -> Seq<int> {
    index_range(0, k).filter(seed_test(m, threshold))
}

/// The seeds of `m`, in order: one for each cluster.
pub open spec fn seeds(m: Seq<StatsView>, threshold: nat) -> Seq<int> {
    seeds_below(m, threshold, m.len() as int)
}

/// The members of the cluster of the seed `i` among the wallets before `k`, in order.
pub open spec fn members_below(m: Seq<StatsView>, threshold: nat, i: int, k: int) -> Seq<int> {
    index_range(i, k).filter(member_test(m, threshold, i))
}

/// The cluster of the seed `i`: the seed, then its other members in order.
pub open spec fn cluster_of(m: Seq<StatsView>, threshold: nat, i: int) -> Seq<int> {
    members_below(m, threshold, i, m.len() as int)
}

/// The addresses at the positions `positions`.
pub open spec fn named(addresses: Seq<Seq<char>>, positions: Seq<int>) -> Seq<Seq<char>> {
    positions.map_values(|j: int| addresses[j])
}

proof fn lemma_similar_cleared(qv: int, dv: int, qs: int, ds: int, dw: int, t: int, one: int)
    ensures
        ((qv - dv) * qs) * one + ((qs - ds) * qv) * one + (one - dw) * (qv * qs) - 3 * t * (qv
            * qs) == qv * ((3 * one - 3 * t - dw) * qs - ds * one) - dv * (qs * one),
{
    let both = qv * qs;
    let apart_v = dv * qs;
    let apart_s = ds * qv;
    let slack = 3 * one - 3 * t - dw;
    assert((qv - dv) * qs == both - apart_v) by (nonlinear_arith)
        requires
            both == qv * qs,
            apart_v == dv * qs,
    ;
    assert((qs - ds) * qv == both - apart_s) by (nonlinear_arith)
        requires
            both == qv * qs,
            apart_s == ds * qv,
    ;
    assert((both - apart_v) * one == both * one - apart_v * one) by (nonlinear_arith);
    assert((both - apart_s) * one == both * one - apart_s * one) by (nonlinear_arith);
    assert((one - dw) * both - 3 * t * both + 2 * (both * one) == slack * both)
        by (nonlinear_arith)
        requires
            slack == 3 * one - 3 * t - dw,
    ;
    assert(qv * (slack * qs - ds * one) == slack * both - apart_s * one) by (nonlinear_arith)
        requires
            both == qv * qs,
            apart_s == ds * qv,
    ;
    assert(dv * (qs * one) == apart_v * one) by (nonlinear_arith)
        requires
            apart_v == dv * qs,
    ;
}

proof fn lemma_range_grows(low: int, high: int)
    requires
        low <= high,
    ensures
        index_range(low, high + 1) == index_range(low, high).push(high),
{
    assert(index_range(low, high + 1) =~= index_range(low, high).push(high));
}

proof fn lemma_empty_range(low: int, test: spec_fn(int) -> bool)
    ensures
        index_range(low, low).filter(test) == Seq::<int>::empty(),
{
    reveal(Seq::filter);
    assert(index_range(low, low) =~= Seq::<int>::empty());
}

impl WalletClusterer {
    /// Decides whether two profiles are [`similar`] at this clusterer's threshold.
    pub fn is_similar(&self, a: &WalletStats, b: &WalletStats) -> (alike: bool)
        ensures
            alike == similar(a@, b@, self.similarity_threshold as nat),
    {
        let unit: u128 = LAMPORTS_PER_SOL as u128;
        let one: u128 = RATE_ONE as u128;
        let t: u128 = self.similarity_threshold as u128;
        let v1: u128 = a.total_volume_sol;
        let v2: u128 = b.total_volume_sol;
        let dv: u128 = if v1 <= v2 {
            v2 - v1
        } else {
            v1 - v2
        };
        let s1: u128 = a.average_entry_size as u128;
        let s2: u128 = b.average_entry_size as u128;
        let ds: u128 = if s1 <= s2 {
            s2 - s1
        } else {
            s1 - s2
        };
        let w1: u128 = a.winrate_proxy as u128;
        let w2: u128 = b.winrate_proxy as u128;
        let dw: u128 = if w1 <= w2 {
            w2 - w1
        } else {
            w1 - w2
        };
        // With the distances `dv`, `ds` and `dw` of the volumes, sizes and rates, and
        // `qv` and `qs` for what the first two are measured against, the profiles are
        // similar when `dv / qv + ds / qs + dw / one <= 3 - 3 * t / one`, that is, when
        // `dv * (qs * one) <= qv * ((3 * one - 3 * t - dw) * qs - ds * one)`.
        let qs: u128 = s1 + s2 + unit;
        let ghost qv: int = v1 + v2 + unit;
        let ghost slack: int = 3 * one - 3 * t - dw;
        let ghost room: int = slack * qs - ds * one;
        proof {
            lemma_similar_cleared(qv, dv as int, qs as int, ds as int, dw as int, t as int, one as int);
            assert(similar(a@, b@, self.similarity_threshold as nat) <==> dv * (qs * one) <= qv
                * room);
            lemma_product_bounds(dv as int, qs * one, u128::MAX as int, (qs * one) as int);
        }
        if 3 * t + dw > 3 * one {
            proof {
                lemma_negative_product(qs as int, slack);
                assert(slack * qs == qs * slack) by (nonlinear_arith);
                lemma_negative_product(qv, room);
            }
            return false;
        }
        let within: u128 = 3 * one - (3 * t + dw);
        proof {
            lemma_product_bounds(within as int, qs as int, 3 * one, 2 * u64::MAX + unit);
        }
        let gained: u128 = within * qs;
        let lost: u128 = ds * one;
        if gained < lost {
            proof {
                lemma_negative_product(qv, room);
            }
            return false;
        }
        let left: u128 = gained - lost;
        let against: u128 = qs * one;
        proof {
            lemma_product_bounds(left as int, v1 as int, 3 * one * (2 * u64::MAX + unit), u128::MAX as int);
            lemma_product_bounds(left as int, v2 as int, 3 * one * (2 * u64::MAX + unit), u128::MAX as int);
            lemma_product_bounds(left as int, unit as int, 3 * one * (2 * u64::MAX + unit), unit as int);
            assert(left * v1 + left * v2 + left * unit == qv * room) by (nonlinear_arith)
                requires
                    qv == v1 + v2 + unit,
                    room == left,
            ;
        }
        let distance_side = Wide::product(dv, against);
        let room_side = Wide::product(left, v1).plus(&Wide::product(left, v2)).plus(
            &Wide::narrow(left * unit),
        );
        distance_side.at_most(&room_side)
    }

    /// Groups the wallets of `stats_map` into clusters. Each inner list is one
    /// cluster: its seed first, then the members that it took, in the order of
    /// `stats_map`. The clusters come in the order of their seeds. An address that
    /// is filed twice counts as two wallets.
    pub fn cluster_wallets(&self, stats_map: &[(String, WalletStats)]) -> (clusters: Vec<
        Vec<String>,
    >)
        ensures
            clusters@.len() == seeds(
                stats_of(stats_map@),
                self.similarity_threshold as nat,
            ).len(),
            forall|c: int|
                0 <= c < clusters@.len() ==> address_views((#[trigger] clusters@[c])@) == named(
                    addresses_of(stats_map@),
                    cluster_of(
                        stats_of(stats_map@),
                        self.similarity_threshold as nat,
                        seeds(stats_of(stats_map@), self.similarity_threshold as nat)[c],
                    ),
                ),
    {
        let n: usize = stats_map.len();
        let ghost m = stats_of(stats_map@);
        let ghost names = addresses_of(stats_map@);
        let ghost t = self.similarity_threshold as nat;
        let mut assigned: Vec<bool> = Vec::new();
        let mut k: usize = 0;
        while k < n
            invariant
                k <= n,
                assigned@.len() == k,
                forall|x: int| 0 <= x < k ==> !assigned@[x],
            decreases n - k,
        {
            assigned.push(false);
            k = k + 1;
        }
        let mut clusters: Vec<Vec<String>> = Vec::new();
        let mut i: usize = 0;
        proof {
            lemma_empty_range(0, seed_test(m, t));
        }
        while i < n
            invariant
                i <= n,
                n == stats_map@.len(),
                m == stats_of(stats_map@),
                names == addresses_of(stats_map@),
                t == self.similarity_threshold as nat,
                assigned@.len() == n,
                forall|x: int|
                    0 <= x < n ==> assigned@[x] == (x < i || joins_before(m, t, x, i as int)),
                clusters@.len() == seeds_below(m, t, i as int).len(),
                forall|c: int|
                    0 <= c < clusters@.len() ==> address_views((#[trigger] clusters@[c])@)
                        == named(names, cluster_of(m, t, seeds_below(m, t, i as int)[c])),
            decreases n - i,
        {
            proof {
                lemma_range_grows(0, i as int);
                index_range(0, i as int).lemma_filter_push(i as int, seed_test(m, t));
            }
            if !assigned[i] {
                assert(is_seed(m, t, i as int));
                let mut cluster: Vec<String> = Vec::new();
                cluster.push(stats_map[i].0.clone());
                assigned.set(i, true);
                let mut j: usize = i + 1;
                proof {
                    lemma_empty_range(i as int, member_test(m, t, i as int));
                    lemma_range_grows(i as int, i as int);
                    index_range(i as int, i as int).lemma_filter_push(
                        i as int,
                        member_test(m, t, i as int),
                    );
                    assert(address_views(cluster@) =~= named(
                        names,
                        members_below(m, t, i as int, j as int),
                    ));
                }
                while j < n
                    invariant
                        i < j <= n,
                        n == stats_map@.len(),
                        m == stats_of(stats_map@),
                        names == addresses_of(stats_map@),
                        t == self.similarity_threshold as nat,
                        is_seed(m, t, i as int),
                        assigned@.len() == n,
                        forall|x: int|
                            0 <= x < n ==> assigned@[x] == (x <= i || joins_before(
                                m,
                                t,
                                x,
                                i as int,
                            ) || (x < j && similar(m[i as int], m[x], t))),
                        address_views(cluster@) == named(
                            names,
                            members_below(m, t, i as int, j as int),
                        ),
                    decreases n - j,
                {
                    proof {
                        lemma_range_grows(i as int, j as int);
                        index_range(i as int, j as int).lemma_filter_push(
                            j as int,
                            member_test(m, t, i as int),
                        );
                    }
                    if !assigned[j] && self.is_similar(&stats_map[i].1, &stats_map[j].1) {
                        let ghost before = address_views(cluster@);
                        cluster.push(stats_map[j].0.clone());
                        assigned.set(j, true);
                        assert(address_views(cluster@) =~= before.push(names[j as int]));
                        assert(named(names, members_below(m, t, i as int, j as int).push(j as int))
                            =~= before.push(names[j as int]));
                    }
                    j = j + 1;
                }
                clusters.push(cluster);
            }
            i = i + 1;
        }
        clusters
    }
}

/// Similarity does not depend on which of the two profiles comes first.
pub proof fn lemma_similar_is_symmetric(a: StatsView, b: StatsView, threshold: nat)
    ensures
        similar(a, b, threshold) == similar(b, a, threshold),
{
    let qv = volume_whole(a, b);
    let qs = size_whole(a, b);
    assert(volume_whole(b, a) == qv);
    assert(size_whole(b, a) == qs);
    assert(distance(a.total_volume_sol as int, b.total_volume_sol as int) == distance(
        b.total_volume_sol as int,
        a.total_volume_sol as int,
    ));
    assert(distance(a.average_entry_size as int, b.average_entry_size as int) == distance(
        b.average_entry_size as int,
        a.average_entry_size as int,
    ));
    assert(distance(a.winrate_proxy as int, b.winrate_proxy as int) == distance(
        b.winrate_proxy as int,
        a.winrate_proxy as int,
    ));
}

/// Two profiles with the same volume, mean size and winrate proxy are similar at
/// every threshold up to 1.0.
pub proof fn lemma_equal_numbers_are_similar(a: StatsView, b: StatsView, threshold: nat)
    requires
        a.total_volume_sol == b.total_volume_sol,
        a.average_entry_size == b.average_entry_size,
        a.winrate_proxy == b.winrate_proxy,
        threshold <= RATE_ONE,
    ensures
        similar(a, b, threshold),
{
    let qv = volume_whole(a, b);
    let qs = size_whole(a, b);
    let both = qv * qs;
    assert(0 <= both) by (nonlinear_arith)
        requires
            both == qv * qs,
            0 <= qv,
            0 <= qs,
    ;
    assert(qs * qv == both) by (nonlinear_arith)
        requires
            both == qv * qs,
    ;
    assert(3 * threshold * both <= 3 * (both * RATE_ONE)) by (nonlinear_arith)
        requires
            0 <= both,
            0 <= threshold <= RATE_ONE,
    ;
    assert(RATE_ONE * both == both * RATE_ONE) by (nonlinear_arith);
}

/// No two profiles are similar at a threshold above 1.0.
pub proof fn lemma_nothing_is_similar_above_one(a: StatsView, b: StatsView, threshold: nat)
    requires
        threshold > RATE_ONE,
    ensures
        !similar(a, b, threshold),
{
    let qv = volume_whole(a, b);
    let qs = size_whole(a, b);
    let pv = qv - distance(a.total_volume_sol as int, b.total_volume_sol as int);
    let ps = qs - distance(a.average_entry_size as int, b.average_entry_size as int);
    let pr = RATE_ONE - distance(a.winrate_proxy as int, b.winrate_proxy as int);
    let both = qv * qs;
    assert(0 < both) by (nonlinear_arith)
        requires
            both == qv * qs,
            0 < qv,
            0 < qs,
    ;
    assert(pv * qs <= both) by (nonlinear_arith)
        requires
            both == qv * qs,
            pv <= qv,
            0 < qs,
    ;
    assert(ps * qv <= both) by (nonlinear_arith)
        requires
            both == qv * qs,
            ps <= qs,
            0 < qv,
    ;
    assert(pr * both <= RATE_ONE * both) by (nonlinear_arith)
        requires
            pr <= RATE_ONE,
            0 < both,
    ;
    assert(3 * threshold * both > 3 * (RATE_ONE * both)) by (nonlinear_arith)
        requires
            0 < both,
            threshold > RATE_ONE,
    ;
    assert((pv * qs) * RATE_ONE <= both * RATE_ONE);
    assert((ps * qv) * RATE_ONE <= both * RATE_ONE);
    assert(both * RATE_ONE == RATE_ONE * both) by (nonlinear_arith);
}

proof fn lemma_joins_before_stays(m: Seq<StatsView>, threshold: nat, j: int, k1: int, k2: int)
    requires
        joins_before(m, threshold, j, k1),
        k1 <= k2 <= j,
    ensures
        joins_before(m, threshold, j, k2),
    decreases k2 - k1,
{
    if k1 < k2 {
        lemma_joins_before_stays(m, threshold, j, k1, k2 - 1);
    }
}

proof fn lemma_first_taker(m: Seq<StatsView>, threshold: nat, j: int, k: int)
    requires
        joins_before(m, threshold, j, k),
    ensures
        exists|i: int|
            0 <= i < k && i < j && is_seed(m, threshold, i) && #[trigger] in_cluster(
                m,
                threshold,
                i,
                j,
            ),
    decreases k,
{
    if joins_before(m, threshold, j, k - 1) {
        lemma_first_taker(m, threshold, j, k - 1);
        let i = choose|i: int|
            0 <= i < k - 1 && i < j && is_seed(m, threshold, i) && #[trigger] in_cluster(
                m,
                threshold,
                i,
                j,
            );
        assert(in_cluster(m, threshold, i, j));
    } else {
        assert(in_cluster(m, threshold, k - 1, j));
    }
}

proof fn lemma_one_seed_takes_each_wallet(m: Seq<StatsView>, threshold: nat, j: int)
    requires
        0 <= j < m.len(),
    ensures
        exists|i: int|
            0 <= i <= j && is_seed(m, threshold, i) && #[trigger] in_cluster(m, threshold, i, j),
        forall|i1: int, i2: int|
            0 <= i1 && 0 <= i2 && is_seed(m, threshold, i1) && is_seed(m, threshold, i2)
                && #[trigger] in_cluster(m, threshold, i1, j) && #[trigger] in_cluster(
                m,
                threshold,
                i2,
                j,
            ) ==> i1 == i2,
{
    if is_seed(m, threshold, j) {
        assert(in_cluster(m, threshold, j, j));
    } else {
        lemma_first_taker(m, threshold, j, j);
    }
    assert forall|i1: int, i2: int|
        0 <= i1 && 0 <= i2 && is_seed(m, threshold, i1) && is_seed(m, threshold, i2)
            && #[trigger] in_cluster(m, threshold, i1, j) && #[trigger] in_cluster(
            m,
            threshold,
            i2,
            j,
        ) implies i1 == i2 by {
        if i1 < i2 {
            lemma_one_taker(m, threshold, j, i1, i2);
        } else if i2 < i1 {
            lemma_one_taker(m, threshold, j, i2, i1);
        }
    }
}

/// What a test picks from a range: exactly the numbers of the range that pass it, in
/// rising order.
proof fn lemma_picked_from_range(low: int, high: int, test: spec_fn(int) -> bool)
    requires
        low <= high,
    ensures
        forall|x: int| #[trigger]
            index_range(low, high).filter(test).contains(x) <==> (low <= x < high && test(x)),
        forall|a: int, b: int|
            0 <= a < b < index_range(low, high).filter(test).len() ==> index_range(
                low,
                high,
            ).filter(test)[a] < index_range(low, high).filter(test)[b],
    decreases high - low,
{
    let picked = index_range(low, high).filter(test);
    if low == high {
        lemma_empty_range(low, test);
    } else {
        let last = high - 1;
        let before = index_range(low, last).filter(test);
        lemma_picked_from_range(low, last, test);
        lemma_range_grows(low, last);
        index_range(low, last).lemma_filter_push(last, test);
        assert forall|x: int| #[trigger] picked.contains(x) <==> (low <= x < high && test(x)) by {
            if picked.contains(x) {
                let k = choose|k: int| 0 <= k < picked.len() && picked[k] == x;
                if k < before.len() {
                    assert(before[k] == x);
                    assert(before.contains(x));
                }
            }
            if low <= x < high && test(x) {
                if x == last {
                    assert(picked[picked.len() - 1] == x);
                } else {
                    assert(before.contains(x));
                    let k = choose|k: int| 0 <= k < before.len() && before[k] == x;
                    assert(picked[k] == x);
                }
            }
        }
        assert forall|a: int, b: int| 0 <= a < b < picked.len() implies picked[a] < picked[b] by {
            if b == before.len() {
                assert(before.contains(before[a]));
            }
        }
    }
}

/// Every wallet belongs to exactly one cluster: of the clusters, which are the
/// [`cluster_of`] each of the [`seeds`], one holds it and no second one does.
pub proof fn lemma_every_wallet_in_one_cluster(m: Seq<StatsView>, threshold: nat, j: int)
    requires
        0 <= j < m.len(),
    ensures
        exists|c: int|
            0 <= c < seeds(m, threshold).len() && #[trigger] cluster_of(
                m,
                threshold,
                seeds(m, threshold)[c],
            ).contains(j),
        forall|c1: int, c2: int|
            0 <= c1 < seeds(m, threshold).len() && 0 <= c2 < seeds(m, threshold).len()
                && #[trigger] cluster_of(m, threshold, seeds(m, threshold)[c1]).contains(j)
                && #[trigger] cluster_of(m, threshold, seeds(m, threshold)[c2]).contains(j)
                ==> c1 == c2,
{
    let n = m.len() as int;
    let all = seeds(m, threshold);
    lemma_one_seed_takes_each_wallet(m, threshold, j);
    lemma_picked_from_range(0, n, seed_test(m, threshold));
    let i = choose|i: int|
        0 <= i <= j && is_seed(m, threshold, i) && #[trigger] in_cluster(m, threshold, i, j);
    assert(all.contains(i));
    let c = choose|c: int| 0 <= c < all.len() && all[c] == i;
    lemma_picked_from_range(i, n, member_test(m, threshold, i));
    assert(cluster_of(m, threshold, all[c]).contains(j));
    assert forall|c1: int, c2: int|
        0 <= c1 < all.len() && 0 <= c2 < all.len() && #[trigger] cluster_of(
            m,
            threshold,
            all[c1],
        ).contains(j) && #[trigger] cluster_of(m, threshold, all[c2]).contains(j) implies c1
        == c2 by {
        let i1 = all[c1];
        let i2 = all[c2];
        assert(all.contains(i1) && all.contains(i2));
        lemma_picked_from_range(i1, n, member_test(m, threshold, i1));
        lemma_picked_from_range(i2, n, member_test(m, threshold, i2));
        assert(in_cluster(m, threshold, i1, j) && in_cluster(m, threshold, i2, j));
        assert(i1 == i2);
        if c1 < c2 {
            assert(all[c1] < all[c2]);
        } else if c2 < c1 {
            assert(all[c2] < all[c1]);
        }
    }
}

proof fn lemma_one_taker(m: Seq<StatsView>, threshold: nat, j: int, i1: int, i2: int)
    requires
        0 <= i1 < i2,
        is_seed(m, threshold, i1),
        is_seed(m, threshold, i2),
        in_cluster(m, threshold, i1, j),
    ensures
        !in_cluster(m, threshold, i2, j),
{
    if i2 <= j {
        assert(joins_before(m, threshold, j, i1 + 1));
        lemma_joins_before_stays(m, threshold, j, i1 + 1, i2);
    }
}

/// Two wallets whose profiles hold the same numbers end up in one cluster at every
/// threshold up to 1.0: the first is its seed, the second its only other member.
pub proof fn lemma_alike_pair_shares_a_cluster(m: Seq<StatsView>, threshold: nat)
    requires
        m.len() == 2,
        m[0].total_volume_sol == m[1].total_volume_sol,
        m[0].average_entry_size == m[1].average_entry_size,
        m[0].winrate_proxy == m[1].winrate_proxy,
        threshold <= RATE_ONE,
    ensures
        seeds(m, threshold) == seq![0int],
        cluster_of(m, threshold, 0) == seq![0int, 1int],
{
    reveal_with_fuel(joins_before, 3);
    lemma_equal_numbers_are_similar(m[0], m[1], threshold);
    assert(is_seed(m, threshold, 0));
    assert(!is_seed(m, threshold, 1));
    lemma_empty_range(0, seed_test(m, threshold));
    lemma_range_grows(0, 0);
    index_range(0, 0).lemma_filter_push(0, seed_test(m, threshold));
    lemma_range_grows(0, 1);
    index_range(0, 1).lemma_filter_push(1, seed_test(m, threshold));
    assert(seeds(m, threshold) =~= seq![0int]);
    lemma_empty_range(0, member_test(m, threshold, 0));
    index_range(0, 0).lemma_filter_push(0, member_test(m, threshold, 0));
    index_range(0, 1).lemma_filter_push(1, member_test(m, threshold, 0));
    assert(in_cluster(m, threshold, 0, 1));
    assert(cluster_of(m, threshold, 0) =~= seq![0int, 1int]);
}

proof fn lemma_never_taken_above_one(m: Seq<StatsView>, threshold: nat, j: int, k: int)
    requires
        threshold > RATE_ONE,
    ensures
        !joins_before(m, threshold, j, k),
    decreases k,
{
    if 0 < k <= j {
        lemma_never_taken_above_one(m, threshold, j, k - 1);
        lemma_nothing_is_similar_above_one(m[k - 1], m[j], threshold);
    }
}

proof fn lemma_all_seeds_above_one(m: Seq<StatsView>, threshold: nat, k: int)
    requires
        threshold > RATE_ONE,
        0 <= k,
    ensures
        seeds_below(m, threshold, k) == index_range(0, k),
    decreases k,
{
    if k == 0 {
        lemma_empty_range(0, seed_test(m, threshold));
        assert(index_range(0, 0) =~= Seq::<int>::empty());
    } else {
        lemma_all_seeds_above_one(m, threshold, k - 1);
        lemma_range_grows(0, k - 1);
        index_range(0, k - 1).lemma_filter_push(k - 1, seed_test(m, threshold));
        lemma_never_taken_above_one(m, threshold, k - 1, k - 1);
    }
}

proof fn lemma_alone_above_one(m: Seq<StatsView>, threshold: nat, i: int, k: int)
    requires
        threshold > RATE_ONE,
        i < k,
    ensures
        members_below(m, threshold, i, k) == seq![i],
    decreases k - i,
{
    lemma_range_grows(i, k - 1);
    index_range(i, k - 1).lemma_filter_push(k - 1, member_test(m, threshold, i));
    if k == i + 1 {
        lemma_empty_range(i, member_test(m, threshold, i));
        assert(members_below(m, threshold, i, k) =~= seq![i]);
    } else {
        lemma_alone_above_one(m, threshold, i, k - 1);
        lemma_nothing_is_similar_above_one(m[i], m[k - 1], threshold);
    }
}

/// At a threshold above 1.0 there are as many clusters as wallets: every wallet is
/// a seed, and alone in its cluster.
pub proof fn lemma_every_wallet_alone_above_one(m: Seq<StatsView>, threshold: nat)
    requires
        threshold > RATE_ONE,
    ensures
        seeds(m, threshold) == index_range(0, m.len() as int),
        seeds(m, threshold).len() == m.len(),
        forall|i: int| 0 <= i < m.len() ==> #[trigger] cluster_of(m, threshold, i) == seq![i],
{
    lemma_all_seeds_above_one(m, threshold, m.len() as int);
    assert forall|i: int| 0 <= i < m.len() implies #[trigger] cluster_of(m, threshold, i) == seq![
        i,
    ] by {
        lemma_alone_above_one(m, threshold, i, m.len() as int);
    }
}

} // verus!
