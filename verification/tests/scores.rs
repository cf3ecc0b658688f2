use wallet_scoring::{
    calculate_insider_confidence, calculate_whale_score, is_early_entry, DynamicScorer,
    WalletStats, LAMPORTS_PER_SOL, ONE_POINT, RATE_ONE,
};

const SOL: u64 = LAMPORTS_PER_SOL;

fn profile(volume_sol: u128, count: u64, mean_sol: u64, early: u64, winrate: u64) -> WalletStats {
    WalletStats {
        address: "wallet".to_string(),
        total_volume_sol: volume_sol * SOL as u128,
        interaction_count: count,
        average_entry_size: mean_sol * SOL,
        early_entry_count: early,
        winrate_proxy: winrate,
    }
}

#[test]
fn early_entry_window_is_inclusive() {
    assert!(is_early_entry(1050, 1000, 60));
    assert!(!is_early_entry(1100, 1000, 60));
    assert!(!is_early_entry(900, 1000, 60));
    assert!(is_early_entry(1060, 1000, 60));
    assert!(!is_early_entry(1061, 1000, 60));
    assert!(is_early_entry(1000, 1000, 0));
    assert!(!is_early_entry(0, u64::MAX, u64::MAX));
    assert!(is_early_entry(u64::MAX, 0, u64::MAX));
}

#[test]
fn whale_score_adds_its_six_terms() {
    // 10 + 10 + 4 + 2 + 4 + 8
    assert_eq!(calculate_whale_score(&profile(100, 10, 10, 5, 800_000_000)), 38);
}

#[test]
fn whale_score_rounds_down() {
    // 6.67 + 2 + 0.4 + 0.06 + 1.2 + 5 = 15.33
    assert_eq!(calculate_whale_score(&profile(3, 3, 1, 1, 500_000_000)), 15);
}

#[test]
fn whale_score_without_purchases_is_zero() {
    assert_eq!(calculate_whale_score(&profile(1000, 0, 100, 0, RATE_ONE)), 0);
    assert_eq!(calculate_whale_score(&profile(0, 0, 0, 0, 0)), 0);
}

#[test]
fn whale_score_is_at_most_100() {
    assert_eq!(calculate_whale_score(&profile(1000, 100, 100, 100, RATE_ONE)), 100);
    let extreme = WalletStats {
        address: String::new(),
        total_volume_sol: u128::MAX,
        interaction_count: u64::MAX,
        average_entry_size: u64::MAX,
        early_entry_count: u64::MAX,
        winrate_proxy: u64::MAX,
    };
    assert_eq!(calculate_whale_score(&extreme), 100);
    let only_winrate = WalletStats {
        address: String::new(),
        total_volume_sol: 0,
        interaction_count: 1,
        average_entry_size: 0,
        early_entry_count: 0,
        winrate_proxy: 10 * RATE_ONE,
    };
    assert_eq!(calculate_whale_score(&only_winrate), 100);
}

#[test]
fn whale_score_caps_each_term() {
    // 20 + 20 + 20 + 10 + 20 + 0: every capped term at its ceiling, no profit
    assert_eq!(calculate_whale_score(&profile(100_000, 1000, 5000, 1000, 0)), 90);
}

#[test]
fn insider_confidence_adds_its_terms() {
    // 20 + 15 + 5 + 10
    assert_eq!(calculate_insider_confidence(5, 10, 10 * SOL, 20 * SOL, 3), 50);
    // 13.33 + 23.33 + 7.78 + 10 = 54.44
    assert_eq!(calculate_insider_confidence(1, 3, 7 * SOL, 9 * SOL, 1), 54);
}

#[test]
fn insider_confidence_gates_the_early_entries() {
    // two early entries do not reach three: 0 + 15 + 5 + 10
    assert_eq!(calculate_insider_confidence(2, 10, 10 * SOL, 20 * SOL, 3), 30);
    // exactly three do: 12 + 15 + 5 + 10
    assert_eq!(calculate_insider_confidence(3, 10, 10 * SOL, 20 * SOL, 3), 42);
}

#[test]
fn insider_confidence_steps_at_the_threshold() {
    // at the threshold: 20 + 30 + 10 + 10
    assert_eq!(calculate_insider_confidence(5, 10, 20 * SOL, 20 * SOL, 3), 70);
    // between once and twice the threshold: 20 + 30 + 15 + 10
    assert_eq!(calculate_insider_confidence(5, 10, 30 * SOL, 20 * SOL, 3), 75);
    // at twice the threshold: 20 + 30 + 20 + 10
    assert_eq!(calculate_insider_confidence(5, 10, 40 * SOL, 20 * SOL, 3), 80);
    assert_eq!(calculate_insider_confidence(10, 10, 40 * SOL, 20 * SOL, 3), 100);
}

#[test]
fn insider_confidence_without_purchases_is_zero() {
    assert_eq!(calculate_insider_confidence(0, 0, 10 * SOL, 20 * SOL, 0), 0);
    assert_eq!(calculate_insider_confidence(7, 0, u64::MAX, 0, 3), 0);
}

#[test]
fn insider_confidence_is_at_most_100() {
    assert_eq!(calculate_insider_confidence(u64::MAX, 1, u64::MAX, 1, 0), 100);
    // 40 + 30 + 10 + 10: the size reaches the threshold but not twice the threshold
    assert_eq!(calculate_insider_confidence(u64::MAX, u64::MAX, u64::MAX, u64::MAX, u64::MAX), 90);
    assert_eq!(calculate_insider_confidence(0, u64::MAX, 0, u64::MAX, u64::MAX), 10);
}

#[test]
fn default_weights_are_40_30_20_10() {
    let scorer = DynamicScorer::default();
    assert_eq!(scorer.early_entry_weight, 40 * ONE_POINT);
    assert_eq!(scorer.buy_size_weight, 30 * ONE_POINT);
    assert_eq!(scorer.repetition_weight, 20 * ONE_POINT);
    assert_eq!(scorer.profit_weight, 10 * ONE_POINT);
}

#[test]
fn dynamic_score_adds_its_six_terms() {
    // 12 + 6 early, 4 + 1 size, 2 repetition, 7 profit
    assert_eq!(DynamicScorer::default().calculate_score(&profile(50, 5, 10, 3, 700_000_000)), 32);
    let scorer = DynamicScorer {
        early_entry_weight: 10 * ONE_POINT,
        buy_size_weight: 20 * ONE_POINT,
        repetition_weight: 30 * ONE_POINT,
        profit_weight: 40 * ONE_POINT,
    };
    // 3 + 1.5 early, 2.67 + 0.67 size, 3 repetition, 28 profit = 38.83
    assert_eq!(scorer.calculate_score(&profile(50, 5, 10, 3, 700_000_000)), 38);
}

#[test]
fn dynamic_score_takes_weights_in_fractions_of_a_point() {
    let scorer = DynamicScorer {
        early_entry_weight: 12_500_000_000,
        buy_size_weight: 7 * ONE_POINT + 1,
        repetition_weight: 3,
        profit_weight: ONE_POINT / 3,
    };
    let stats = WalletStats {
        address: "wallet".to_string(),
        total_volume_sol: 77 * SOL as u128,
        interaction_count: 9,
        average_entry_size: 8 * SOL + 5,
        early_entry_count: 4,
        winrate_proxy: 123_456_789,
    };
    // 2.78 + 2.5 early, 0.75 + 0.36 size, next to nothing else = 6.42
    assert_eq!(scorer.calculate_score(&stats), 6);
}

#[test]
fn dynamic_score_splits_the_weights() {
    let early = DynamicScorer {
        early_entry_weight: 200 * ONE_POINT,
        buy_size_weight: 0,
        repetition_weight: 0,
        profit_weight: 0,
    };
    // a tenth of one half for the share, a tenth of the other half for the number
    assert_eq!(early.calculate_score(&profile(0, 10, 0, 1, 0)), 20);
    let size = DynamicScorer {
        early_entry_weight: 0,
        buy_size_weight: 300 * ONE_POINT,
        repetition_weight: 0,
        profit_weight: 0,
    };
    // half of two thirds for the mean size, half of one third for the volume: 150
    assert_eq!(size.calculate_score(&profile(250, 1, 25, 0, 0)), 100);
}

#[test]
fn dynamic_score_without_purchases_is_zero() {
    assert_eq!(DynamicScorer::default().calculate_score(&profile(50, 0, 10, 0, RATE_ONE)), 0);
}

#[test]
fn dynamic_score_is_at_most_100() {
    let heavy = DynamicScorer {
        early_entry_weight: 1000 * ONE_POINT,
        buy_size_weight: 0,
        repetition_weight: 0,
        profit_weight: 0,
    };
    assert_eq!(heavy.calculate_score(&profile(0, 10, 0, 1, 0)), 100);
    let extreme = DynamicScorer {
        early_entry_weight: u64::MAX,
        buy_size_weight: u64::MAX,
        repetition_weight: u64::MAX,
        profit_weight: u64::MAX,
    };
    let stats = WalletStats {
        address: String::new(),
        total_volume_sol: u128::MAX,
        interaction_count: u64::MAX,
        average_entry_size: u64::MAX,
        early_entry_count: u64::MAX,
        winrate_proxy: u64::MAX,
    };
    assert_eq!(extreme.calculate_score(&stats), 100);
    let by_profit = DynamicScorer {
        early_entry_weight: 0,
        buy_size_weight: 0,
        repetition_weight: 0,
        profit_weight: u64::MAX,
    };
    // the largest weight is 18.4 billion points: 18.4 for a winrate of a billionth
    assert_eq!(by_profit.calculate_score(&profile(0, 1, 0, 0, 1)), 18);
    assert_eq!(by_profit.calculate_score(&profile(0, 1, 0, 0, 5)), 92);
    assert_eq!(by_profit.calculate_score(&profile(0, 1, 0, 0, 6)), 100);
}

#[test]
fn default_weights_give_the_whale_score() {
    let profiles = [
        profile(50, 5, 10, 3, 700_000_000),
        profile(100, 10, 10, 5, 800_000_000),
        profile(0, 2, 0, 1, 0),
        profile(3, 3, 1, 1, 500_000_000),
        profile(0, 7, 0, 0, 300_000_000),
        profile(1000, 100, 100, 100, RATE_ONE),
        profile(100_000, 1000, 5000, 1000, 0),
        profile(7, 0, 7, 0, 0),
    ];
    let expected = [32, 38, 12, 15, 5, 100, 90, 0];
    for (stats, score) in profiles.iter().zip(expected) {
        assert_eq!(calculate_whale_score(stats), score);
        assert_eq!(DynamicScorer::default().calculate_score(stats), score);
    }
    let extreme = WalletStats {
        address: String::new(),
        total_volume_sol: u128::MAX,
        interaction_count: u64::MAX,
        average_entry_size: u64::MAX,
        early_entry_count: u64::MAX,
        winrate_proxy: u64::MAX,
    };
    assert_eq!(DynamicScorer::default().calculate_score(&extreme), 100);
    assert_eq!(calculate_whale_score(&extreme), 100);
}
