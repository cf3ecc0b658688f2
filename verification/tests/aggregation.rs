use wallet_scoring::{
    calculate_batch_stats, group_by_wallet, hash_wallet_address, process_interactions,
    TokenInteraction, LAMPORTS_PER_SOL, RATE_ONE,
};

const SOL: u64 = LAMPORTS_PER_SOL;

fn purchase(wallet: &str, token: &str, time: u64, lamports: u64, early: bool) -> TokenInteraction {
    TokenInteraction {
        wallet_address: wallet.to_string(),
        token_mint: token.to_string(),
        block_time: time,
        sol_amount: lamports,
        is_early_entry: early,
    }
}

#[test]
fn empty_log_gives_the_no_data_profile() {
    let stats = process_interactions(&[]);
    assert_eq!(stats.address, "");
    assert_eq!(stats.total_volume_sol, 0);
    assert_eq!(stats.interaction_count, 0);
    assert_eq!(stats.average_entry_size, 0);
    assert_eq!(stats.early_entry_count, 0);
    assert_eq!(stats.winrate_proxy, 0);
}

#[test]
fn profile_of_two_purchases() {
    let log = vec![
        purchase("addr1", "token1", 1000, 10 * SOL, true),
        purchase("addr1", "token2", 2000, 20 * SOL, false),
    ];
    let stats = process_interactions(&log);
    assert_eq!(stats.address, "addr1");
    assert_eq!(stats.interaction_count, 2);
    assert_eq!(stats.total_volume_sol, 30 * SOL as u128);
    assert_eq!(stats.average_entry_size, 15 * SOL);
    assert_eq!(stats.early_entry_count, 1);
    // one and a half times one half
    assert_eq!(stats.winrate_proxy, 750_000_000);
}

#[test]
fn winrate_proxy_is_capped_and_rounded_down() {
    let all_early = vec![purchase("a", "t", 1, 1, true), purchase("a", "t", 2, 1, true)];
    assert_eq!(process_interactions(&all_early).winrate_proxy, RATE_ONE);
    let none_early = vec![purchase("a", "t", 1, 1, false)];
    assert_eq!(process_interactions(&none_early).winrate_proxy, 0);
    let mut one_of_seven = vec![purchase("a", "t", 0, 1, true)];
    for time in 1..7 {
        one_of_seven.push(purchase("a", "t", time, 1, false));
    }
    // 1.5 / 7 = 0.214285714...
    assert_eq!(process_interactions(&one_of_seven).winrate_proxy, 214_285_714);
}

#[test]
fn mean_size_is_rounded_down() {
    let log = vec![
        purchase("a", "t", 1, 1, false),
        purchase("a", "t", 2, 1, false),
        purchase("a", "t", 3, 2, false),
    ];
    let stats = process_interactions(&log);
    assert_eq!(stats.total_volume_sol, 4);
    assert_eq!(stats.average_entry_size, 1);
}

#[test]
fn volume_does_not_overflow() {
    let log = vec![
        purchase("a", "t", 1, u64::MAX, true),
        purchase("a", "t", 2, u64::MAX, true),
        purchase("a", "t", 3, u64::MAX, true),
    ];
    let stats = process_interactions(&log);
    assert_eq!(stats.total_volume_sol, 3 * (u64::MAX as u128));
    assert_eq!(stats.average_entry_size, u64::MAX);
}

#[test]
fn profile_does_not_depend_on_the_order() {
    let first = purchase("addr1", "token1", 1000, 10 * SOL, true);
    let second = purchase("addr1", "token2", 2000, 20 * SOL, false);
    let third = purchase("addr1", "token3", 3000, 7, true);
    let one = process_interactions(&[first.clone(), second.clone(), third.clone()]);
    let other = process_interactions(&[third, first, second]);
    assert_eq!(one.address, other.address);
    assert_eq!(one.total_volume_sol, other.total_volume_sol);
    assert_eq!(one.interaction_count, other.interaction_count);
    assert_eq!(one.average_entry_size, other.average_entry_size);
    assert_eq!(one.early_entry_count, other.early_entry_count);
    assert_eq!(one.winrate_proxy, other.winrate_proxy);
}

#[test]
fn profile_is_the_same_on_every_call() {
    let log = vec![
        purchase("addr1", "token1", 1000, 10 * SOL, true),
        purchase("addr1", "token2", 2000, 20 * SOL, false),
    ];
    let one = process_interactions(&log);
    let other = process_interactions(&log);
    assert_eq!(one.address, other.address);
    assert_eq!(one.total_volume_sol, other.total_volume_sol);
    assert_eq!(one.interaction_count, other.interaction_count);
    assert_eq!(one.average_entry_size, other.average_entry_size);
    assert_eq!(one.early_entry_count, other.early_entry_count);
    assert_eq!(one.winrate_proxy, other.winrate_proxy);
}

#[test]
fn groups_follow_first_occurrence() {
    let log = vec![
        purchase("b", "t1", 1, 10, true),
        purchase("a", "t2", 2, 20, false),
        purchase("b", "t3", 3, 30, false),
        purchase("c", "t4", 4, 40, true),
        purchase("a", "t5", 5, 50, true),
    ];
    let groups = group_by_wallet(&log);
    assert_eq!(groups.len(), 3);
    assert_eq!(groups[0].0, "b");
    assert_eq!(groups[1].0, "a");
    assert_eq!(groups[2].0, "c");
    let sizes: Vec<Vec<u64>> = groups
        .iter()
        .map(|g| g.1.iter().map(|t| t.sol_amount).collect())
        .collect();
    assert_eq!(sizes, vec![vec![10, 30], vec![20, 50], vec![40]]);
    assert_eq!(groups[0].1[1].token_mint, "t3");
    assert_eq!(groups[0].1[1].block_time, 3);
    assert!(groups.iter().all(|g| g.1.iter().all(|t| t.wallet_address == g.0)));
}

#[test]
fn empty_log_has_no_groups() {
    assert!(group_by_wallet(&[]).is_empty());
    assert!(calculate_batch_stats(&[]).is_empty());
}

#[test]
fn batch_profiles_each_wallet() {
    let log = vec![
        purchase("b", "t1", 1, 10 * SOL, true),
        purchase("a", "t2", 2, 20 * SOL, false),
        purchase("b", "t3", 3, 30 * SOL, false),
    ];
    let stats = calculate_batch_stats(&log);
    assert_eq!(stats.len(), 2);
    assert_eq!(stats[0].0, "b");
    assert_eq!(stats[0].1.address, "b");
    assert_eq!(stats[0].1.total_volume_sol, 40 * SOL as u128);
    assert_eq!(stats[0].1.interaction_count, 2);
    assert_eq!(stats[0].1.average_entry_size, 20 * SOL);
    assert_eq!(stats[0].1.early_entry_count, 1);
    assert_eq!(stats[0].1.winrate_proxy, 750_000_000);
    assert_eq!(stats[1].0, "a");
    assert_eq!(stats[1].1.address, "a");
    assert_eq!(stats[1].1.total_volume_sol, 20 * SOL as u128);
    assert_eq!(stats[1].1.interaction_count, 1);
    assert_eq!(stats[1].1.early_entry_count, 0);
    assert_eq!(stats[1].1.winrate_proxy, 0);
}

#[test]
fn batch_gives_each_wallet_the_same_profile_in_any_order() {
    let one = vec![
        purchase("b", "t1", 1, 10 * SOL, true),
        purchase("a", "t2", 2, 20 * SOL, false),
        purchase("b", "t3", 3, 30 * SOL, false),
    ];
    let other = vec![one[1].clone(), one[2].clone(), one[0].clone()];
    let first = calculate_batch_stats(&one);
    let second = calculate_batch_stats(&other);
    assert_eq!(first.len(), second.len());
    for (address, stats) in first.iter() {
        let same = second.iter().find(|e| &e.0 == address).expect("the wallet is in both");
        assert_eq!(stats.total_volume_sol, same.1.total_volume_sol);
        assert_eq!(stats.interaction_count, same.1.interaction_count);
        assert_eq!(stats.average_entry_size, same.1.average_entry_size);
        assert_eq!(stats.early_entry_count, same.1.early_entry_count);
        assert_eq!(stats.winrate_proxy, same.1.winrate_proxy);
        assert_eq!(stats.address, same.1.address);
    }
}

#[test]
fn address_hash_is_the_sha256_in_lower_hex() {
    assert_eq!(
        hash_wallet_address("abc"),
        "ba7816bf8f01cfea414140de5dae2223b00361a396177a9cb410ff61f20015ad"
    );
    assert_eq!(
        hash_wallet_address(""),
        "e3b0c44298fc1c149afbf4c8996fb92427ae41e4649b934ca495991b7852b855"
    );
    assert_eq!(hash_wallet_address("addr1").len(), 64);
    assert_ne!(hash_wallet_address("addr1"), hash_wallet_address("addr2"));
    assert_ne!(hash_wallet_address("addr1"), "addr1");
}
