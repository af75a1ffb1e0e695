use wenruji_rs::decay_game::DecayGame;
use wenruji_rs::fixed::FRAC_ONE;

#[test]
fn test_validate() {
    let now: u64 = 1000;
    let mut decay_starts_at: u64 = 100;
    let decay_ends_at: u64 = 1000;

    // now > start => Error
    let pool = DecayGame::new(decay_starts_at, decay_ends_at);
    pool.validate(now).unwrap_err();

    // start > end => Error
    decay_starts_at = 1001;
    let pool = DecayGame::new(decay_starts_at, decay_ends_at);
    pool.validate(now).unwrap_err();

    // now < start < end => Success
    let decay_ends_at: u64 = 1002;
    let pool = DecayGame::new(decay_starts_at, decay_ends_at);
    pool.validate(now).unwrap();
}

#[test]
fn lifecycle() {
    let mut now: u64 = 1;
    let decay_starts_at: u64 = 100;
    let decay_ends_at: u64 = 1000;

    let mut pool = DecayGame::new(decay_starts_at, decay_ends_at);
    pool.validate(now).unwrap();

    let mut account = pool.join(100u128, now).unwrap();
    assert_eq!(pool.total, 100u128);
    assert_eq!(account.amount, 100u128);
    assert_eq!(account.pending, 0u128);
    assert_eq!(account.decay_snapshot, 0u128);

    // No decay: now is still before the start date
    pool.exit(now, &mut account);
    assert_eq!(pool.exited, 100u128);
    assert_eq!(pool.pending_rewards(), 0u128);
    assert_eq!(account.amount, 100u128);
    assert_eq!(account.pending, 100u128);
    assert_eq!(account.decay_snapshot, cosmwasm_std::Decimal::one().atomics().u128());
    assert_eq!(pool.pending_claims(&account), 100u128);

    let claim = pool.claim(&mut account);
    assert_eq!(claim, 100u128);
    assert_eq!(account.pending, 0u128);
    assert_eq!(pool.pending_claims(&account), 0u128);

    let mut account = pool.join(100u128, now).unwrap();
    assert_eq!(pool.total, 200u128);

    now = 550;
    pool.exit(now, &mut account);
    assert_eq!(account.amount, 100u128);
    assert_eq!(account.pending, 50u128);
    assert_eq!(
        account.decay_snapshot,
        cosmwasm_std::Decimal::from_ratio(1u128, 2u128).atomics().u128()
    );

    let claim = pool.claim(&mut account);
    assert_eq!(claim, 50u128);
    assert_eq!(account.pending, 0u128);
    assert_eq!(pool.pending_claims(&account), 0u128);

    assert_eq!(pool.pending_rewards(), 50u128);
    pool.distribute_rewards(now).unwrap_err();

    // join till the end
    let mut account = pool.join(100u128, now).unwrap();

    // move now after ends_at
    now = 2000;

    // exit after end => decay 0
    pool.exit(now, &mut account);
    assert_eq!(account.amount, 100u128);
    assert_eq!(account.pending, 0u128);
    assert_eq!(account.decay_snapshot, 0u128);

    // distribute the rewards
    let rewards = pool.distribute_rewards(now).unwrap();
    assert_eq!(rewards, 150u128);

    pool.distribute_rewards(now).unwrap_err();

    // join after end => err
    pool.join(100u128, now).unwrap_err();
}

#[test]
fn decay_midpoint_is_exactly_half() {
    // An even window: at the midpoint the remaining fraction is exactly 1/2.
    let pool = DecayGame::new(0, 100);
    let f = wenruji_rs::decay_game::decay_factor(&pool, 50);
    assert_eq!(f, FRAC_ONE / 2);
    // Before the window: 1; after it: 0.
    assert_eq!(wenruji_rs::decay_game::decay_factor(&pool, 0), FRAC_ONE);
    assert_eq!(wenruji_rs::decay_game::decay_factor(&pool, 101), 0);
}

#[test]
fn round_trip_full_and_half_fraction() {
    // join(100) at t=0 in window [0,100]: exit at t=0 pays the whole stake.
    let mut pool = DecayGame::new(0, 100);
    let mut account = pool.join(100u128, 0).unwrap();
    pool.exit(0, &mut account);
    assert_eq!(account.pending, 100u128);

    // a second join of 100, exited at t=50, pays half.
    let mut account2 = pool.join(100u128, 0).unwrap();
    pool.exit(50, &mut account2);
    assert_eq!(account2.pending, 50u128);
}

#[test]
fn claim_twice_returns_then_zero() {
    let mut pool = DecayGame::new(0, 100);
    let mut account = pool.join(70u128, 0).unwrap();
    pool.exit(0, &mut account);
    let first = pool.claim(&mut account);
    let second = pool.claim(&mut account);
    assert_eq!(first, 70u128);
    assert_eq!(second, 0u128);
}

#[test]
fn finalize_twice_fails_with_no_rewards() {
    let mut pool = DecayGame::new(0, 100);
    pool.join(100u128, 0).unwrap();
    let first = pool.distribute_rewards(101).unwrap();
    assert_eq!(first, 100u128);
    let second = pool.distribute_rewards(101);
    assert_eq!(second.unwrap_err().to_string(), "NoRewards");
}
