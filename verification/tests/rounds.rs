use wenruji_rs::config::{Config, Fee, Fees};
use wenruji_rs::game::{Point, Points};
use wenruji_rs::rounds::{execute_endgame, execute_restart, RoundState};

fn pct(p: u64) -> u128 {
    cosmwasm_std::Decimal::percent(p).atomics().u128()
}

fn round_config() -> Config {
    Config {
        owner: "owner".to_string(),
        ticket_denom: "token".to_string(),
        ticket_amount: 100u128,
        duration_seconds: 100,
        game_delay_sec: 10,
        delay_play_seconds: 1,
        winner_share: pct(97),
        fees: Fees {
            fee_platform: Fee { address: "platform_fee".to_string(), bp: pct(1) },
            fee_ref: Fee { address: "ref_fee".to_string(), bp: pct(2) },
        },
        points: Points { keep: 6i64, hit: -4i64, help: Point { myself: 6i64, other: 4i64 } },
    }
}

#[test]
fn snapshot_ring_keeps_only_the_last_ten_rounds() {
    let mut state = RoundState::new(0, 100);
    let player = "player1".to_string();

    for round in 1..=11u64 {
        let start = state.game.game_base.decay_game.decay_starts_at;
        let end = state.game.game_base.decay_game.decay_ends_at;
        assert_eq!(state.idx, round);

        state.game.join(start, &player, 100u128).unwrap();
        state.game.endgame(end + 1).unwrap();
        let next = execute_restart(&mut state, end + 1, 100, 10).unwrap();
        assert_eq!(next, round + 1);
    }

    // After eleven restarts the first round's snapshot is evicted while
    // the eleventh's is still held.
    assert!(state.get_snapshot(1).is_none());
    assert!(state.get_snapshot(11).is_some());
    assert!(state.get_snapshot(2).is_some());
    assert_eq!(state.idx, 12);
}

#[test]
fn restart_requires_a_completed_round() {
    let mut state = RoundState::new(0, 100);
    state.game.join(0, &"player1".to_string(), 100u128).unwrap();

    // Not ended yet
    let err = execute_restart(&mut state, 50, 100, 10);
    assert_eq!(err.unwrap_err().to_string(), "GameNotEnded");

    // Ended but rewards not finalized
    let err = execute_restart(&mut state, 101, 100, 10);
    assert_eq!(err.unwrap_err().to_string(), "GameNotEnded");

    // Completed: finalize, then restart opens a delayed window
    state.game.endgame(101).unwrap();
    execute_restart(&mut state, 101, 100, 10).unwrap();
    assert_eq!(state.game.game_base.decay_game.decay_starts_at, 111);
    assert_eq!(state.game.game_base.decay_game.decay_ends_at, 211);
}

#[test]
fn endgame_splits_the_pot_over_winner_and_fees() {
    let config = round_config();
    let mut state = RoundState::new(0, 100);
    let alice = "alice".to_string();
    let bob = "bob".to_string();

    state.game.join(0, &alice, 600u128).unwrap();
    state.game.join(0, &bob, 400u128).unwrap();
    state.game.play(wenruji_rs::game::PlayMsg::Keep, &bob, &config, 10).unwrap();

    let out = execute_endgame(&mut state, 101, &config).unwrap();
    assert_eq!(out.winner, bob);
    assert_eq!(out.points, 6i64);

    // Pot of 1000, split 97/1/2 over winner and the two fees (no referral
    // weights, so the referral fee recipient is not in the list; weights
    // normalize to 97/98 and 1/98)
    assert_eq!(out.payouts.len(), 2);
    assert_eq!(out.payouts[0].0, bob);
    assert_eq!(out.payouts[0].1[0].denom, "token");
    assert_eq!(out.payouts[0].1[0].amount, 989u128);
    assert_eq!(out.payouts[1].0, "platform_fee");
    assert_eq!(out.payouts[1].1[0].amount, 10u128);

    // A second endgame on the same round finds no rewards left
    let err = execute_endgame(&mut state, 101, &config);
    assert_eq!(err.unwrap_err().to_string(), "NoRewards");
}
