use wenruji_rs::config::{Config, Fee, Fees};
use wenruji_rs::fixed::FRAC_ONE;
use wenruji_rs::game::{GameSM, PlayMsg, PlayerStatus, Point, Points};

fn pct(p: u64) -> u128 {
    cosmwasm_std::Decimal::percent(p).atomics().u128()
}

fn game_config() -> Config {
    Config {
        owner: "owner".to_string(),
        ticket_denom: "token".to_string(),
        ticket_amount: 100u128,
        duration_seconds: 3600,
        game_delay_sec: 10,
        delay_play_seconds: 1,
        winner_share: pct(97),
        fees: Fees {
            fee_platform: Fee { address: "platform_fee".to_string(), bp: pct(1) },
            fee_ref: Fee { address: "ref_fee".to_string(), bp: pct(2) },
        },
        points: Points { keep: 6i64, hit: -4i64, help: Point { myself: 6i64, other: 4i64 } },
    }
}

#[test]
fn test_initialize() {
    let mut state = GameSM::new();

    let start_time: u64 = 0;
    let end_time: u64 = 100;

    let result = state.initialize(start_time, end_time);
    assert!(result.is_ok(), "Initialization should succeed");

    // Boundary check: Verify decay start and end timestamps are set correctly
    assert_eq!(state.game_base.decay_game.decay_starts_at, start_time);
    assert_eq!(state.game_base.decay_game.decay_ends_at, end_time);
    assert!(state.game_base.current_winner.is_none());
}

#[test]
fn test_increase_ref() {
    let mut state = GameSM::new();

    let user = "user".to_string();
    let user2 = "user2".to_string();

    state.increase_ref(&user).unwrap();
    state.increase_ref(&user2).unwrap();

    // Boundary check: Increase ref multiple times for same address
    state.increase_ref(&user).unwrap();
    let referrals = state.get_ref_weights().unwrap();

    assert_eq!(referrals.len(), 2, "There should be two unique referrers.");
    assert_eq!(referrals[0].1, pct(200), "User1 should have two ref counts");
    assert_eq!(referrals[1].1, pct(100), "User2 should have one ref count");
}

#[test]
fn test_exit_with_already_exited_account() {
    let mut state = GameSM::new();

    let user = "user".to_string();

    state.initialize(0, 100).unwrap();

    state.join(1, &user, 100u128).unwrap();

    // Simulate an exit
    let _ = state.exit(50, &user).unwrap();

    // Attempt a second exit, which should fail
    let second_exit = state.exit(50, &user);
    assert!(second_exit.is_err(), "Second exit should fail as already exited");
    assert_eq!(second_exit.unwrap_err().to_string(), "Invalid: already_exited");
}

#[test]
fn test_endgame_with_no_participants() {
    let mut state = GameSM::new();

    state.initialize(0, 100).unwrap();

    // Endgame should fail without participants: there are no rewards
    let result = state.endgame(101);
    assert_eq!(
        result.unwrap_err().to_string(),
        "NoRewards",
        "Endgame should throw no rewards error"
    );
}

#[test]
fn test_apply_points_overflow() {
    let mut player = PlayerStatus {
        address: "user".to_string(),
        points: i64::MAX - 1,
        history: vec![],
        last_play: 0,
    };

    GameSM::apply_points(&mut player, 2);
    assert_eq!(player.points, i64::MAX, "Points should max out at i64::MAX");
}

#[test]
fn test_has_ended_just_before_end() {
    let mut state = GameSM::new();

    state.initialize(0, 100).unwrap();

    // Boundary test: Game should not end right before decay_ends_at
    assert!(!state.is_ended(99), "Game should not be ended just before end time");
}

#[test]
fn test_get_snap_structure() {
    let mut state = GameSM::new();

    let start_time: u64 = 0;
    let end_time: u64 = 100;

    // Initialize game state
    state.initialize(start_time, end_time).unwrap();

    // Add a player and increase ref counts
    let user = "user".to_string();
    let join_amount = 100u128;
    state.join(1, &user, join_amount).unwrap();
    state.increase_ref(&user).unwrap();

    // Take a snapshot
    let snapshot = state.get_snap().unwrap();
    println!("{:?}", snapshot);

    // Verify snapshot structure
    assert_eq!(
        snapshot.decay_game.decay_starts_at, start_time,
        "Decay start should match initialized time"
    );
    assert_eq!(
        snapshot.decay_game.decay_ends_at, end_time,
        "Decay end should match initialized time"
    );
    assert!(
        snapshot.current_winner.is_some(),
        "Winner by definition is the first who joins if no points are made"
    );

    // Check players and referral counts in snapshot
    assert_eq!(snapshot.players.len(), 1, "There should be one player in snapshot");
    assert_eq!(snapshot.referrals.len(), 1, "There should be one referral in snapshot");
    assert_eq!(snapshot.referrals[0].1, pct(100), "Referral weight should match");
}

fn winner_of(state: &GameSM) -> (String, i64) {
    state.game_base.current_winner.clone().expect("a winner must be cached")
}

fn rescan_of(state: &GameSM) -> i64 {
    let snap = state.get_snap().unwrap();
    let mut max = i64::MIN;
    for p in snap.players.iter() {
        if p.points > max {
            max = p.points;
        }
    }
    max
}

fn check_leader(state: &GameSM) {
    // The cached leader must always carry the true maximum of the table.
    let (_, points) = winner_of(state);
    assert_eq!(points, rescan_of(state));
}

#[test]
fn leader_follows_every_play() {
    let config = game_config();
    let mut state = GameSM::new();
    state.initialize(0, 3600).unwrap();

    let alice = "alice".to_string();
    let bob = "bob".to_string();
    let carol = "carol".to_string();

    state.join(0, &alice, 100u128).unwrap();
    state.join(0, &bob, 100u128).unwrap();
    state.join(0, &carol, 100u128).unwrap();
    check_leader(&state);

    // bob keeps: 6 points, takes the lead
    state.play(PlayMsg::Keep, &bob, &config, 10).unwrap();
    check_leader(&state);
    assert_eq!(winner_of(&state), (bob.clone(), 6));

    // carol hits the cached leader: bob drops to 2, and the forced rescan
    // must find the true maximum again
    state.play(PlayMsg::Hit { target: bob.clone() }, &carol, &config, 10).unwrap();
    check_leader(&state);
    assert_eq!(winner_of(&state).1, 2);

    // alice helps carol: alice gets 6 and takes the lead
    state.play(PlayMsg::Help { target: carol.clone() }, &alice, &config, 10).unwrap();
    check_leader(&state);
    assert_eq!(winner_of(&state), (alice.clone(), 6));

    // carol keeps twice (cooldown respected): 4 + 6 + 6 = 16, far ahead
    state.play(PlayMsg::Keep, &carol, &config, 11).unwrap();
    check_leader(&state);
    state.play(PlayMsg::Keep, &carol, &config, 12).unwrap();
    check_leader(&state);
    assert_eq!(winner_of(&state), (carol.clone(), 16));
}

#[test]
fn play_rejects_self_target_and_cooldown() {
    let config = game_config();
    let mut state = GameSM::new();
    state.initialize(0, 3600).unwrap();

    let alice = "alice".to_string();
    let bob = "bob".to_string();
    state.join(0, &alice, 100u128).unwrap();
    state.join(0, &bob, 100u128).unwrap();

    // a player may not target itself
    let err = state.play(PlayMsg::Hit { target: alice.clone() }, &alice, &config, 10);
    assert_eq!(err.unwrap_err().to_string(), "Invalid: target");

    // a player who never joined is not found
    let err = state.play(PlayMsg::Keep, &"mallory".to_string(), &config, 10);
    assert!(err.is_err());

    // the cooldown rejects a second play in the same second
    state.play(PlayMsg::Keep, &alice, &config, 10).unwrap();
    let err = state.play(PlayMsg::Keep, &alice, &config, 10);
    assert_eq!(err.unwrap_err().to_string(), "Invalid: play_timestamp");

    // the boundary is allowed: exactly one cooldown later
    state.play(PlayMsg::Keep, &alice, &config, 11).unwrap();
}
