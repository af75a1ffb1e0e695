use wenruji_rs::coins::Coin;
use wenruji_rs::vault::{Config, ConfigUpdate, Contracts, Fee, Fees, InstantiateMsg, VaultState};
use wenruji_rs::vault::{
    execute_donate, execute_endgame, execute_exit, execute_join, execute_post_swap,
    execute_restart,
};

fn pct(p: u64) -> u128 {
    cosmwasm_std::Decimal::percent(p).atomics().u128()
}

fn base_msg() -> InstantiateMsg {
    InstantiateMsg {
        owner: "owner".to_string(),
        ticket_denom: "utoken".to_string(),
        ticket_amount: 100u128,
        duration_seconds: 3600,
        contracts: Contracts {
            referral: "referral_contract".to_string(),
            swap: "swap_contract".to_string(),
        },
        donation_addrs: vec!["donation1".to_string(), "donation2".to_string()],
        fees: Fees {
            fee_platform: Fee { address: "platform".to_string(), fee: pct(10) },
            fee_nami: Fee { address: "nami".to_string(), fee: pct(5) },
            fee_ref: Fee { address: "referral".to_string(), fee: pct(3) },
        },
        starts_at: 0,
        game_delay: 60,
        admins: None,
    }
}

fn setup_config() -> Config {
    Config {
        owner: "owner".to_string(),
        ticket_denom: "utoken".to_string(),
        ticket_amount: 100u128,
        duration_seconds: 3600,
        contracts: Contracts {
            referral: "referral_contract".to_string(),
            swap: "swap_contract".to_string(),
        },
        donation_addrs: vec!["donation1".to_string()],
        fees: vec![
            ("platform".to_string(), pct(1)),
            ("nami".to_string(), pct(2)),
            ("referral".to_string(), pct(1)),
        ],
        winner_share: pct(90),
        game_delay: 60u64,
    }
}

#[test]
fn test_new_config() {
    let msg = base_msg();

    let config = Config::new(msg).unwrap();
    assert_eq!(config.owner, "owner");
    assert_eq!(config.ticket_denom, "utoken");
    assert_eq!(config.ticket_amount, 100u128);
    assert_eq!(config.duration_seconds, 3600);
    assert_eq!(config.donation_addrs.len(), 2);
    assert_eq!(config.fees.len(), 3);
    assert_eq!(config.winner_share, pct(82)); // 100% - 10% - 5% - 3%
}

#[test]
fn test_new_config_invalid_fees() {
    let mut msg = base_msg();
    msg.donation_addrs = vec![];
    msg.fees = Fees {
        fee_platform: Fee { address: "platform".to_string(), fee: pct(50) },
        fee_nami: Fee { address: "nami".to_string(), fee: pct(30) },
        fee_ref: Fee { address: "referral".to_string(), fee: pct(25) },
    };

    let config = Config::new(msg);
    assert!(config.is_err()); // Fees add up to more than 100%, so it should fail
}

#[test]
fn test_validate_config() {
    let mut msg = base_msg();
    msg.donation_addrs = vec!["donation1".to_string()];

    let config = Config::new(msg).unwrap();
    let validation_result = config.validate();
    assert!(validation_result.is_ok())
}

#[test]
fn test_apply_update() {
    let msg = base_msg();
    let mut config = Config::new(msg).unwrap();

    let update = ConfigUpdate {
        owner: Some("new_owner".to_string()),
        ticket_denom: Some("newtoken".to_string()),
        ticket_amount: Some(200u128),
        duration_seconds: None,
        game_delay: None,
        contracts: None,
        donation_addrs: None,
        fees: Some(Fees {
            fee_platform: Fee { address: "platform".to_string(), fee: pct(8) },
            fee_nami: Fee { address: "nami".to_string(), fee: pct(4) },
            fee_ref: Fee { address: "referral".to_string(), fee: pct(2) },
        }),
        admins: None,
    };

    config.apply_update(update).unwrap();
    assert_eq!(config.owner, "new_owner");
    assert_eq!(config.ticket_denom, "newtoken");
    assert_eq!(config.ticket_amount, 200u128);
    assert_eq!(config.duration_seconds, 3600); // Unchanged
    assert_eq!(config.fees.len(), 3);
    assert_eq!(config.winner_share, pct(86)); // Updated to 100% - 8% - 4% - 2%
}

#[test]
fn test_execute_join() {
    let now: u64 = 1_000_000;
    let account = "player1".to_string();
    let amount = 1000u128;

    // Initialize the pool state
    let mut state = VaultState::new(now, now + 3600);

    // Execute join
    let result = execute_join(&mut state, now, &account, amount);
    assert!(result.is_ok());

    // Verify that the account was saved
    let account_data = *state.accounts.get(&account).unwrap();
    assert_eq!(account_data.amount, amount);
}

#[test]
fn test_execute_exit() {
    let now: u64 = 1_000_000;
    let account = "player1".to_string();
    let amount = 1000u128;

    // Initialize the pool and account data
    let mut state = VaultState::new(now, now + 3600);
    execute_join(&mut state, now, &account, amount).unwrap();

    // Execute exit error now game ended
    execute_exit(&mut state, now + 86400, &account).unwrap_err();

    // Execute exit
    let result = execute_exit(&mut state, now, &account);
    assert!(result.is_ok());

    // Execute exit error already claimed
    execute_exit(&mut state, now, &account).unwrap_err();

    // Verify that the account's decay_snapshot was set
    let account_data = *state.accounts.get(&account).unwrap();
    assert_ne!(account_data.decay_snapshot, 0u128);
}

#[test]
fn test_execute_endgame() {
    let now: u64 = 1_000_000;

    // Initialize the pool with staked funds
    let mut state = VaultState::new(now, now + 3600);
    execute_join(&mut state, now, &"player1".to_string(), 1000u128).unwrap();

    // Execute endgame
    let result = execute_endgame(&mut state, now + 3601);
    assert!(result.is_ok());
    assert_eq!(result.unwrap(), 1000u128);
}

#[test]
fn test_execute_donate() {
    let mut state = VaultState::new(0, 100);
    let coin = Coin { denom: "utoken".to_string(), amount: 500u128 };

    // Execute donate
    let result = execute_donate(&mut state, coin);
    assert!(result.is_ok());

    // Verify that the reward was recorded
    let stored = *state.rewards.get(&"utoken".to_string()).unwrap();
    assert_eq!(stored, 500u128);
}

#[test]
fn test_execute_restart() {
    let now: u64 = 1_000_000;
    let config = setup_config();

    // A round with players exited and rewards finalized
    let mut state = VaultState::new(now, now + 3600);
    execute_join(&mut state, now, &"player1".to_string(), 1000u128).unwrap();
    execute_exit(&mut state, now + 1800, &"player1".to_string()).unwrap();
    execute_endgame(&mut state, now + 3601).unwrap();

    // Execute restart error not ended
    execute_restart(&mut state, now, &config).unwrap_err();

    // Execute restart
    execute_restart(&mut state, now + 4000, &config).unwrap();

    // Verify that the new game has been created with reset state
    assert_eq!(state.decay_game.total, 0u128);
    assert_eq!(state.decay_game.exited, 0u128);
}

#[test]
fn test_execute_post_swap() {
    let config = setup_config();
    let winner = "winner".to_string();
    let win_coin = Coin { denom: "win_token".to_string(), amount: 1000u128 };

    let mut state = VaultState::new(0, 100);

    // Add mock reward to the donations
    execute_donate(&mut state, Coin { denom: "utoken".to_string(), amount: 1000u128 }).unwrap();

    // Execute post_swap
    let out = execute_post_swap(&mut state, &config, winner.clone(), win_coin).unwrap();

    // The distribution names at least the winner and one fee recipient
    assert!(out.payouts.len() >= 2);

    // The winner's combined payout holds the donations and the winner's
    // share of the swapped coin: 90/94 of 1000, floored
    assert_eq!(out.winner_rewards.len(), 2);
    assert_eq!(out.winner_rewards[0].denom, "utoken");
    assert_eq!(out.winner_rewards[0].amount, 1000u128);
    assert_eq!(out.winner_rewards[1].denom, "win_token");
    assert_eq!(out.winner_rewards[1].amount, 957u128);

    // The donations are spent
    assert!(state.rewards.entries.is_empty());
}
