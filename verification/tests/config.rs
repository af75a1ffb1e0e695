use wenruji_rs::config::{Config, ConfigUpdate, Fee, Fees, InstantiateMsg};
use wenruji_rs::game::{Point, Points};

fn pct(p: u64) -> u128 {
    cosmwasm_std::Decimal::percent(p).atomics().u128()
}

fn create_config(msg: InstantiateMsg) -> Result<Config, wenruji_rs::error::ContractError> {
    Config::new(msg)
}

#[test]
fn test_valid_config_creation() {
    let msg = InstantiateMsg {
        owner: "owner".to_string(),
        ticket_denom: "token".to_string(),
        ticket_amount: 100u128,
        duration_seconds: 3600,
        game_delay_sec: 10,
        delay_play_seconds: 5,
        fees: Fees {
            fee_platform: Fee { bp: pct(1), address: "platform_fee".to_string() },
            fee_ref: Fee { bp: pct(2), address: "ref_fee".to_string() },
        },
        points: Points { keep: 6i64, hit: -4i64, help: Point { myself: 6i64, other: 4i64 } },
        starts_at: 10000,
    };

    // Create the config using the given InstantiateMsg
    let config = create_config(msg).unwrap();

    // Check the values of the created config
    assert_eq!(config.owner, "owner");
    assert_eq!(config.ticket_denom, "token");
    assert_eq!(config.ticket_amount, 100u128);
    assert_eq!(config.duration_seconds, 3600);
    assert_eq!(config.game_delay_sec, 10);
    assert_eq!(config.delay_play_seconds, 5);
    assert_eq!(config.fees.fee_platform.bp, pct(1));
    assert_eq!(config.fees.fee_ref.bp, pct(2));
    assert_eq!(config.points.keep, 6i64);
    assert_eq!(config.points.hit, -4i64);
    assert_eq!(config.points.help.myself, 6i64);
    assert_eq!(config.points.help.other, 4i64);
}

#[test]
fn test_invalid_fee_total() {
    let msg = InstantiateMsg {
        owner: "owner".to_string(),
        ticket_denom: "token".to_string(),
        ticket_amount: 100u128,
        duration_seconds: 3600,
        game_delay_sec: 10,
        delay_play_seconds: 5,
        fees: Fees {
            fee_platform: Fee { bp: pct(90), address: "platform_fee".to_string() },
            fee_ref: Fee { bp: pct(15), address: "ref_fee".to_string() },
        },
        points: Points { keep: 6i64, hit: -4i64, help: Point { myself: 6i64, other: 4i64 } },
        starts_at: 10000,
    };

    // Ensure the total fee is invalid and throws an error
    let result = create_config(msg);
    assert!(result.is_err(), "Config creation should fail due to invalid fee total");
}

#[test]
fn test_apply_config_update() {
    let mut config = Config {
        owner: "owner".to_string(),
        ticket_denom: "token".to_string(),
        ticket_amount: 100u128,
        duration_seconds: 3600,
        game_delay_sec: 10,
        delay_play_seconds: 5,
        fees: Fees {
            fee_platform: Fee { bp: pct(1), address: "platform_fee".to_string() },
            fee_ref: Fee { bp: pct(2), address: "ref_fee".to_string() },
        },
        points: Points { keep: 6i64, hit: -4i64, help: Point { myself: 6i64, other: 4i64 } },
        winner_share: pct(97),
    };

    let update_msg = ConfigUpdate {
        owner: Some("new_owner".to_string()),
        ticket_denom: Some("new_token".to_string()),
        ticket_amount: Some(200u128),
        duration_seconds: Some(7200),
        delay_play_seconds: Some(10),
        game_delay_sec: Some(15),
        points: Some(Points { keep: 10i64, hit: -5i64, help: Point { myself: 10i64, other: 5i64 } }),
        fees: Some(Fees {
            fee_platform: Fee { bp: pct(2), address: "new_platform_fee".to_string() },
            fee_ref: Fee { bp: pct(3), address: "new_ref_fee".to_string() },
        }),
    };

    config.apply_update(update_msg).expect("Failed to apply update");

    // Validate updated values
    assert_eq!(config.owner, "new_owner");
    assert_eq!(config.ticket_denom, "new_token");
    assert_eq!(config.ticket_amount, 200u128);
    assert_eq!(config.duration_seconds, 7200);
    assert_eq!(config.fees.fee_platform.bp, pct(2));
    assert_eq!(config.fees.fee_ref.bp, pct(3));
    assert_eq!(config.winner_share, pct(95));
    assert_eq!(config.points.keep, 10i64);
    assert_eq!(config.points.hit, -5i64);
    assert_eq!(config.points.help.myself, 10i64);
    assert_eq!(config.points.help.other, 5i64);
}

#[test]
fn test_config_numeric_validation() {
    let msg = InstantiateMsg {
        owner: "owner".to_string(),
        ticket_denom: "token".to_string(),
        ticket_amount: 0u128,
        duration_seconds: 3600,
        game_delay_sec: 10,
        delay_play_seconds: 5,
        fees: Fees {
            fee_platform: Fee { bp: pct(1), address: "platform_fee".to_string() },
            fee_ref: Fee { bp: pct(2), address: "ref_fee".to_string() },
        },
        points: Points { keep: 6i64, hit: -4i64, help: Point { myself: 6i64, other: 4i64 } },
        starts_at: 10000,
    };
    let config = Config::new(msg).unwrap();
    let err = config.validate();
    assert_eq!(err.unwrap_err().to_string(), "Invalid: ticket_amount");
}
