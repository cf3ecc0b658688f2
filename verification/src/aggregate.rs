//! Reducing a log of purchases to one profile per wallet.

use crate::types::{
    address_views, addresses_of, interaction_views, InteractionView, StatsView, TokenInteraction,
    WalletStats, RATE_ONE,
};
use vstd::multiset::Multiset;
use vstd::prelude::*;

verus! {

/// 1 for an early entry, 0 for any other purchase.
pub open spec fn early_flag(t: InteractionView) -> nat {
    if t.is_early_entry {
        1
    } else {
        0
    }
}

/// Sum of the purchase sizes of `s`, in lamports.
pub open spec fn total_amount(s: Seq<InteractionView>) -> nat
    decreases s.len(),
{
    if s.len() == 0 {
        0
    } else {
        total_amount(s.drop_last()) + s.last().sol_amount
    }
}

/// Number of early entries in `s`.
pub open spec fn early_entries(s: Seq<InteractionView>) -> nat
    decreases s.len(),
{
    if s.len() == 0 {
        0
    } else {
        early_entries(s.drop_last()) + early_flag(s.last())
    }
}

/// The winrate proxy of a wallet with `early` early entries among `count` purchases:
/// one and a half times the share of early entries, at most 1.0, in billionths and
/// rounded down. Without purchases it is 0.
pub open spec fn winrate_from_entries(early: nat, count: nat) -> nat {
    if count == 0 {
        0
    } else {
        let raw = early * 1_500_000_000 / count;
        if raw < RATE_ONE {
            raw
        } else {
            RATE_ONE as nat
        }
    }
}

/// The profile that stands for "no data": an empty address and zeros.
pub open spec fn empty_stats() -> StatsView {
    StatsView {
        address: Seq::empty(),
        total_volume_sol: 0,
        interaction_count: 0,
        average_entry_size: 0,
        early_entry_count: 0,
        winrate_proxy: 0,
    }
}

/// The profile of the wallet whose purchases are `s`. The address is that of the
/// first purchase; the mean size is rounded down.
pub open spec fn aggregate(s: Seq<InteractionView>) -> StatsView {
    if s.len() == 0 {
        empty_stats()
    } else {
        StatsView {
            address: s[0].wallet_address,
            total_volume_sol: total_amount(s),
            interaction_count: s.len(),
            average_entry_size: total_amount(s) / s.len(),
            early_entry_count: early_entries(s),
            winrate_proxy: winrate_from_entries(early_entries(s), s.len()),
        }
    }
}

/// All purchases of `s` are by one wallet.
pub open spec fn one_wallet(s: Seq<InteractionView>) -> bool {
    forall|i: int| 0 <= i < s.len() ==> (#[trigger] s[i]).wallet_address == s[0].wallet_address
}

/// The purchases of `s` made by `wallet`, in their order in `s`.
pub open spec fn of_wallet(s: Seq<InteractionView>, wallet: Seq<char>) -> Seq<InteractionView> {
    s.filter(|t: InteractionView| t.wallet_address == wallet)
}

/// The wallets that occur in `s`, each once, in the order of their first purchase.
pub open spec fn wallets_of(s: Seq<InteractionView>) -> Seq<Seq<char>>
    decreases s.len(),
{
    if s.len() == 0 {
        Seq::empty()
    } else {
        let earlier = wallets_of(s.drop_last());
        if earlier.contains(s.last().wallet_address) {
            earlier
        } else {
            earlier.push(s.last().wallet_address)
        }
    }
}

/// The total size, in lamports, and the number of early entries of a log.
pub(crate) fn tally(interactions: &[TokenInteraction]) -> (sums: (u128, u64))
    ensures
        sums.0 == total_amount(interaction_views(interactions@)),
        sums.1 == early_entries(interaction_views(interactions@)),
        sums.0 <= interactions@.len() * u64::MAX,
        sums.1 <= interactions@.len(),
{
    let n: usize = interactions.len();
    let ghost v = interaction_views(interactions@);
    let mut total: u128 = 0;
    let mut early: u64 = 0;
    let mut i: usize = 0;
    while i < n
        invariant
            n == interactions.len(),
            i <= n,
            v == interaction_views(interactions@),
            total == total_amount(v.take(i as int)),
            early == early_entries(v.take(i as int)),
            total <= i * u64::MAX,
            early <= i,
        decreases n - i,
    {
        let item = &interactions[i];
        proof {
            assert(v.take(i + 1).drop_last() =~= v.take(i as int));
            assert(v.take(i + 1).last() == item@);
        }
        total = total + item.sol_amount as u128;
        if item.is_early_entry {
            early = early + 1;
        }
        i = i + 1;
    }
    proof {
        assert(v.take(n as int) =~= v);
    }
    (total, early)
}

/// Computes [`aggregate`] of a wallet's purchases. The caller sees to it that they are
/// all by one wallet; the first one names it. An empty slice gives the "no data"
/// profile.
pub fn process_interactions(interactions: &[TokenInteraction]) -> (stats: WalletStats)
    ensures
        stats@ == aggregate(interaction_views(interactions@)),
        stats@.wf(),
{
    let n: usize = interactions.len();
    if n == 0 {
        return WalletStats {
            address: String::new(),
            total_volume_sol: 0,
            interaction_count: 0,
            average_entry_size: 0,
            early_entry_count: 0,
            winrate_proxy: 0,
        };
    }
    let (total, early) = tally(interactions);
    let count: u64 = n as u64;
    assert(total / (count as u128) <= u64::MAX) by (nonlinear_arith)
        requires
            total <= count * u64::MAX,
            count > 0,
    ;
    let average: u64 = (total / count as u128) as u64;
    let raw: u128 = early as u128 * 1_500_000_000 / count as u128;
    let winrate: u64 = if raw < RATE_ONE as u128 {
        raw as u64
    } else {
        RATE_ONE
    };
    WalletStats {
        address: interactions[0].wallet_address.clone(),
        total_volume_sol: total,
        interaction_count: count,
        average_entry_size: average,
        early_entry_count: early,
        winrate_proxy: winrate,
    }
}

/// Whether `wallet` is among `known`.
fn is_known(known: &Vec<String>, wallet: &String) -> (found: bool)
    ensures
        found == address_views(known@).contains(wallet@),
{
    let mut k: usize = 0;
    while k < known.len()
        invariant
            k <= known.len(),
            forall|j: int| 0 <= j < k ==> address_views(known@)[j] != wallet@,
        decreases known.len() - k,
    {
        if known[k] == *wallet {
            assert(address_views(known@)[k as int] == wallet@);
            return true;
        }
        k = k + 1;
    }
    false
}

/// The wallets that occur in `interactions`, each once, by first purchase.
fn distinct_wallets(interactions: &[TokenInteraction]) -> (wallets: Vec<String>)
    ensures
        address_views(wallets@) == wallets_of(interaction_views(interactions@)),
{
    let ghost v = interaction_views(interactions@);
    let mut wallets: Vec<String> = Vec::new();
    let mut i: usize = 0;
    while i < interactions.len()
        invariant
            i <= interactions.len(),
            v == interaction_views(interactions@),
            address_views(wallets@) == wallets_of(v.take(i as int)),
        decreases interactions.len() - i,
    {
        let wallet = &interactions[i].wallet_address;
        proof {
            assert(v.take(i + 1).drop_last() =~= v.take(i as int));
            assert(v.take(i + 1).last().wallet_address == wallet@);
        }
        if !is_known(&wallets, wallet) {
            let ghost before = address_views(wallets@);
            wallets.push(wallet.clone());
            assert(address_views(wallets@) =~= before.push(wallet@));
        }
        i = i + 1;
    }
    proof {
        assert(v.take(interactions.len() as int) =~= v);
    }
    wallets
}

/// The purchases that `wallet` made, in their order in `interactions`.
fn interactions_of(interactions: &[TokenInteraction], wallet: &String) -> (own: Vec<TokenInteraction>)
    ensures
        interaction_views(own@) == of_wallet(interaction_views(interactions@), wallet@),
{
    let ghost v = interaction_views(interactions@);
    let ghost by_wallet = |t: InteractionView| t.wallet_address == wallet@;
    let mut own: Vec<TokenInteraction> = Vec::new();
    let mut i: usize = 0;
    proof {
        reveal(Seq::filter);
        assert(v.take(0).filter(by_wallet) =~= Seq::<InteractionView>::empty());
        assert(interaction_views(own@) =~= Seq::<InteractionView>::empty());
    }
    while i < interactions.len()
        invariant
            i <= interactions.len(),
            v == interaction_views(interactions@),
            by_wallet == (|t: InteractionView| t.wallet_address == wallet@),
            interaction_views(own@) == v.take(i as int).filter(by_wallet),
        decreases interactions.len() - i,
    {
        let item = &interactions[i];
        proof {
            assert(v.take(i + 1) =~= v.take(i as int).push(item@));
            v.take(i as int).lemma_filter_push(item@, by_wallet);
        }
        if item.wallet_address == *wallet {
            let ghost before = interaction_views(own@);
            own.push(item.clone());
            assert(interaction_views(own@) =~= before.push(item@));
        }
        i = i + 1;
    }
    proof {
        assert(v.take(interactions.len() as int) =~= v);
    }
    own
}

/// Splits a log by wallet. The groups come in the order in which their wallets first
/// occur; each holds the wallet's purchases in their order in the log.
pub fn group_by_wallet(interactions: &[TokenInteraction]) -> (groups: Vec<
    (String, Vec<TokenInteraction>),
>)
    ensures
        groups@.len() == wallets_of(interaction_views(interactions@)).len(),
        forall|g: int|
            0 <= g < groups@.len() ==> {
                &&& (#[trigger] groups@[g]).0@ == wallets_of(interaction_views(interactions@))[g]
                &&& interaction_views(groups@[g].1@) == of_wallet(
                    interaction_views(interactions@),
                    groups@[g].0@,
                )
            },
{
    let ghost v = interaction_views(interactions@);
    let wallets = distinct_wallets(interactions);
    let mut groups: Vec<(String, Vec<TokenInteraction>)> = Vec::new();
    let mut g: usize = 0;
    while g < wallets.len()
        invariant
            g <= wallets.len(),
            v == interaction_views(interactions@),
            address_views(wallets@) == wallets_of(v),
            groups@.len() == g,
            forall|h: int|
                0 <= h < g ==> {
                    &&& (#[trigger] groups@[h]).0@ == wallets_of(v)[h]
                    &&& interaction_views(groups@[h].1@) == of_wallet(v, groups@[h].0@)
                },
        decreases wallets.len() - g,
    {
        let wallet = wallets[g].clone();
        assert(wallet@ == address_views(wallets@)[g as int]);
        let own = interactions_of(interactions, &wallet);
        groups.push((wallet, own));
        g = g + 1;
    }
    assert(address_views(wallets@).len() == wallets@.len());
    groups
}

/// The profile of every wallet in a log: for each wallet, in the order of first
/// occurrence, its address and the [`aggregate`] of its purchases.
pub fn calculate_batch_stats(interactions: &[TokenInteraction]) -> (stats: Vec<(String, WalletStats)>)
    ensures
        stats@.len() == wallets_of(interaction_views(interactions@)).len(),
        forall|g: int|
            0 <= g < stats@.len() ==> {
                &&& (#[trigger] stats@[g]).0@ == wallets_of(interaction_views(interactions@))[g]
                &&& stats@[g].1@ == aggregate(
                    of_wallet(interaction_views(interactions@), stats@[g].0@),
                )
                &&& stats@[g].1@.address == stats@[g].0@
                &&& stats@[g].1@.wf()
            },
        addresses_of(stats@).no_duplicates(),
{
    let ghost v = interaction_views(interactions@);
    let groups = group_by_wallet(interactions);
    let mut stats: Vec<(String, WalletStats)> = Vec::new();
    let mut g: usize = 0;
    while g < groups.len()
        invariant
            g <= groups.len(),
            v == interaction_views(interactions@),
            groups@.len() == wallets_of(v).len(),
            forall|h: int|
                0 <= h < groups@.len() ==> {
                    &&& (#[trigger] groups@[h]).0@ == wallets_of(v)[h]
                    &&& interaction_views(groups@[h].1@) == of_wallet(v, groups@[h].0@)
                },
            stats@.len() == g,
            forall|h: int|
                0 <= h < g ==> {
                    &&& (#[trigger] stats@[h]).0@ == wallets_of(v)[h]
                    &&& stats@[h].1@ == aggregate(of_wallet(v, stats@[h].0@))
                    &&& stats@[h].1@.address == stats@[h].0@
                    &&& stats@[h].1@.wf()
                },
        decreases groups.len() - g,
    {
        let group = &groups[g];
        let profile = process_interactions(group.1.as_slice());
        proof {
            assert(wallets_of(v).contains(wallets_of(v)[g as int]));
            lemma_group_is_wallets_own(v, group.0@);
        }
        stats.push((group.0.clone(), profile));
        g = g + 1;
    }
    proof {
        lemma_wallets_listed_once(v);
        assert(addresses_of(stats@) =~= wallets_of(v));
    }
    stats
}

proof fn lemma_sums_remove(s: Seq<InteractionView>, i: int)
    requires
        0 <= i < s.len(),
    ensures
        total_amount(s) == total_amount(s.remove(i)) + s[i].sol_amount,
        early_entries(s) == early_entries(s.remove(i)) + early_flag(s[i]),
    decreases s.len(),
{
    if i == s.len() - 1 {
        assert(s.remove(i) =~= s.drop_last());
    } else {
        lemma_sums_remove(s.drop_last(), i);
        assert(s.remove(i).drop_last() =~= s.drop_last().remove(i));
        assert(s.remove(i).last() == s.last());
    }
}

proof fn lemma_shared_purchase(a: Seq<InteractionView>, b: Seq<InteractionView>, x: InteractionView)
    requires
        a.to_multiset() == b.to_multiset(),
        a.contains(x),
    ensures
        b.contains(x),
{
    vstd::seq_lib::to_multiset_contains(a, x);
    vstd::seq_lib::to_multiset_contains(b, x);
}

proof fn lemma_sums_ignore_order(a: Seq<InteractionView>, b: Seq<InteractionView>)
    requires
        a.to_multiset() == b.to_multiset(),
    ensures
        a.len() == b.len(),
        total_amount(a) == total_amount(b),
        early_entries(a) == early_entries(b),
    decreases a.len(),
{
    a.to_multiset_ensures();
    b.to_multiset_ensures();
    if a.len() > 0 {
        let x = a.last();
        assert(a.contains(x)) by {
            assert(a[a.len() - 1] == x);
        }
        lemma_shared_purchase(a, b, x);
        let j = choose|j: int| 0 <= j < b.len() && b[j] == x;
        assert(a.drop_last() =~= a.remove(a.len() - 1));
        assert(a.drop_last().to_multiset() =~= b.remove(j).to_multiset());
        lemma_sums_ignore_order(a.drop_last(), b.remove(j));
        lemma_sums_remove(b, j);
    }
}

/// The aggregator does not depend on the order of the log: two logs that hold the
/// same purchases, each as often as the other, give the same numbers, and where the
/// purchases are by one wallet, as the aggregator expects, the same profile.
pub proof fn lemma_aggregate_ignores_order(a: Seq<InteractionView>, b: Seq<InteractionView>)
    requires
        a.to_multiset() == b.to_multiset(),
    ensures
        aggregate(a).total_volume_sol == aggregate(b).total_volume_sol,
        aggregate(a).interaction_count == aggregate(b).interaction_count,
        aggregate(a).average_entry_size == aggregate(b).average_entry_size,
        aggregate(a).early_entry_count == aggregate(b).early_entry_count,
        aggregate(a).winrate_proxy == aggregate(b).winrate_proxy,
        one_wallet(a) ==> aggregate(a) == aggregate(b),
{
    lemma_sums_ignore_order(a, b);
    if a.len() > 0 && one_wallet(a) {
        a.to_multiset_ensures();
        b.to_multiset_ensures();
        assert(b.contains(b[0]));
        lemma_shared_purchase(b, a, b[0]);
        let i = choose|i: int| 0 <= i < a.len() && a[i] == b[0];
        assert(a[i].wallet_address == a[0].wallet_address);
    }
}

/// [`wallets_of`] lists exactly the wallets that occur in the log, and none twice.
pub proof fn lemma_wallets_listed_once(s: Seq<InteractionView>)
    ensures
        wallets_of(s).no_duplicates(),
        forall|w: Seq<char>| #[trigger]
            wallets_of(s).contains(w) <==> exists|i: int|
                0 <= i < s.len() && (#[trigger] s[i]).wallet_address == w,
    decreases s.len(),
{
    if s.len() > 0 {
        let p = s.drop_last();
        let last = s.last().wallet_address;
        let earlier = wallets_of(p);
        lemma_wallets_listed_once(p);
        assert forall|w: Seq<char>| #[trigger]
            wallets_of(s).contains(w) <==> exists|i: int|
                0 <= i < s.len() && (#[trigger] s[i]).wallet_address == w by {
            if wallets_of(s).contains(w) {
                if earlier.contains(w) {
                    let i = choose|i: int| 0 <= i < p.len() && (#[trigger] p[i]).wallet_address == w;
                    assert(s[i].wallet_address == w);
                } else {
                    let k = choose|k: int| 0 <= k < wallets_of(s).len() && wallets_of(s)[k] == w;
                    assert(s[s.len() - 1].wallet_address == w);
                }
            }
            if exists|i: int| 0 <= i < s.len() && (#[trigger] s[i]).wallet_address == w {
                let i = choose|i: int| 0 <= i < s.len() && (#[trigger] s[i]).wallet_address == w;
                if i < p.len() {
                    assert(p[i].wallet_address == w);
                    assert(earlier.contains(w));
                    let k = choose|k: int| 0 <= k < earlier.len() && earlier[k] == w;
                    assert(wallets_of(s)[k] == w);
                } else {
                    assert(w == last);
                    if !earlier.contains(w) {
                        assert(wallets_of(s)[earlier.len() as int] == w);
                    }
                }
            }
        }
    }
}

/// The purchases filed under a wallet that occurs in the log are not empty and are
/// all that wallet's own, so that their profile bears its address.
pub proof fn lemma_group_is_wallets_own(s: Seq<InteractionView>, wallet: Seq<char>)
    requires
        wallets_of(s).contains(wallet),
    ensures
        of_wallet(s, wallet).len() > 0,
        one_wallet(of_wallet(s, wallet)),
        aggregate(of_wallet(s, wallet)).address == wallet,
{
    let test = |t: InteractionView| t.wallet_address == wallet;
    lemma_wallets_listed_once(s);
    let i = choose|i: int| 0 <= i < s.len() && (#[trigger] s[i]).wallet_address == wallet;
    s.lemma_filter_contains(test, i);
    assert forall|k: int| 0 <= k < s.filter(test).len() implies (#[trigger] s.filter(
        test,
    )[k]).wallet_address == wallet by {
        s.lemma_filter_pred(test, k);
    }
}

proof fn lemma_filtered_count(s: Seq<InteractionView>, test: spec_fn(InteractionView) -> bool, x: InteractionView)
    ensures
        s.filter(test).to_multiset().count(x) == if test(x) {
            s.to_multiset().count(x)
        } else {
            0
        },
    decreases s.len(),
{
    broadcast use vstd::multiset::group_multiset_axioms;

    if s.len() == 0 {
        reveal(Seq::filter);
        assert(s.filter(test) =~= Seq::<InteractionView>::empty());
        assert(s.to_multiset() =~= Multiset::<InteractionView>::empty()) by {
            s.to_multiset_ensures();
        }
        assert(s.filter(test).to_multiset() =~= Multiset::<InteractionView>::empty()) by {
            s.filter(test).to_multiset_ensures();
        }
    } else {
        let p = s.drop_last();
        let last = s.last();
        lemma_filtered_count(p, test, x);
        assert(s =~= p.push(last));
        p.lemma_filter_push(last, test);
        p.to_multiset_ensures();
        p.filter(test).to_multiset_ensures();
    }
}

/// The batch aggregator does not depend on the order of the log either: two logs
/// that hold the same purchases, each as often as the other, name the same wallets
/// and give each of them the same profile.
pub proof fn lemma_batch_ignores_order(
    a: Seq<InteractionView>,
    b: Seq<InteractionView>,
    wallet: Seq<char>,
)
    requires
        a.to_multiset() == b.to_multiset(),
    ensures
        wallets_of(a).contains(wallet) <==> wallets_of(b).contains(wallet),
        aggregate(of_wallet(a, wallet)) == aggregate(of_wallet(b, wallet)),
{
    let test = |t: InteractionView| t.wallet_address == wallet;
    lemma_wallets_listed_once(a);
    lemma_wallets_listed_once(b);
    a.to_multiset_ensures();
    b.to_multiset_ensures();
    if wallets_of(a).contains(wallet) {
        let i = choose|i: int| 0 <= i < a.len() && (#[trigger] a[i]).wallet_address == wallet;
        assert(a.contains(a[i]));
        lemma_shared_purchase(a, b, a[i]);
        let j = choose|j: int| 0 <= j < b.len() && b[j] == a[i];
        assert(b[j].wallet_address == wallet);
    }
    if wallets_of(b).contains(wallet) {
        let i = choose|i: int| 0 <= i < b.len() && (#[trigger] b[i]).wallet_address == wallet;
        assert(b.contains(b[i]));
        lemma_shared_purchase(b, a, b[i]);
        let j = choose|j: int| 0 <= j < a.len() && a[j] == b[i];
        assert(a[j].wallet_address == wallet);
    }
    assert(of_wallet(a, wallet).to_multiset() =~= of_wallet(b, wallet).to_multiset()) by {
        assert forall|x: InteractionView|
            of_wallet(a, wallet).to_multiset().count(x) == of_wallet(b, wallet).to_multiset().count(
                x,
            ) by {
            lemma_filtered_count(a, test, x);
            lemma_filtered_count(b, test, x);
        }
    }
    lemma_aggregate_ignores_order(of_wallet(a, wallet), of_wallet(b, wallet));
    assert(one_wallet(of_wallet(a, wallet))) by {
        assert forall|k: int| 0 <= k < a.filter(test).len() implies (#[trigger] a.filter(
            test,
        )[k]).wallet_address == wallet by {
            a.lemma_filter_pred(test, k);
        }
    }
}

} // verus!
