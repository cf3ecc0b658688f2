use wallet_scoring::{
    calculate_whale_score, is_early_entry, process_interactions, DynamicScorer, PatternDetector,
    TokenInteraction, WalletStats, LAMPORTS_PER_SOL, RATE_ONE,
};

#[test]
fn test_calculate_whale_score() {
    let stats = WalletStats {
        address: "test".to_string(),
        total_volume_sol: 100 * LAMPORTS_PER_SOL as u128,
        interaction_count: 10,
        average_entry_size: 10 * LAMPORTS_PER_SOL,
        early_entry_count: 5,
        winrate_proxy: 8 * RATE_ONE / 10,
    };

    let score = calculate_whale_score(&stats);
    assert!(score <= 100);
    assert!(score > 0);
}

#[test]
fn test_is_early_entry() {
    let creation_time = 1000;
    let early_time = 1050; // 50 seconds after
    let late_time = 1100; // 100 seconds after

    assert!(is_early_entry(early_time, creation_time, 60));
    assert!(!is_early_entry(late_time, creation_time, 60));
}

#[test]
fn test_process_interactions() {
    let interactions = vec![
        TokenInteraction {
            wallet_address: "addr1".to_string(),
            token_mint: "token1".to_string(),
            block_time: 1000,
            sol_amount: 10 * LAMPORTS_PER_SOL,
            is_early_entry: true,
        },
        TokenInteraction {
            wallet_address: "addr1".to_string(),
            token_mint: "token2".to_string(),
            block_time: 2000,
            sol_amount: 20 * LAMPORTS_PER_SOL,
            is_early_entry: false,
        },
    ];

    let stats = process_interactions(&interactions);
    assert_eq!(stats.interaction_count, 2);
    assert_eq!(stats.total_volume_sol, 30 * LAMPORTS_PER_SOL as u128);
    assert_eq!(stats.average_entry_size, 15 * LAMPORTS_PER_SOL);
    assert_eq!(stats.early_entry_count, 1);
}

#[test]
fn test_dynamic_scorer() {
    let scorer = DynamicScorer::default();
    let stats = WalletStats {
        address: "test".to_string(),
        total_volume_sol: 50 * LAMPORTS_PER_SOL as u128,
        interaction_count: 5,
        average_entry_size: 10 * LAMPORTS_PER_SOL,
        early_entry_count: 3,
        winrate_proxy: 7 * RATE_ONE / 10,
    };

    let score = scorer.calculate_score(&stats);
    assert!(score <= 100);
}

#[test]
fn test_pattern_detector() {
    let detector = PatternDetector {
        min_early_entries: 2,
        min_avg_buy_size: 5 * LAMPORTS_PER_SOL,
        consistency_threshold: 8 * RATE_ONE / 10,
    };

    let interactions = vec![
        TokenInteraction {
            wallet_address: "addr1".to_string(),
            token_mint: "token1".to_string(),
            block_time: 1000,
            sol_amount: 10 * LAMPORTS_PER_SOL,
            is_early_entry: true,
        },
        TokenInteraction {
            wallet_address: "addr1".to_string(),
            token_mint: "token2".to_string(),
            block_time: 2000,
            sol_amount: 12 * LAMPORTS_PER_SOL,
            is_early_entry: true,
        },
    ];

    assert!(detector.detect_pattern(&interactions));
}
