use wenruji_rs::coins::{normalize, Coin};
use wenruji_rs::rewards_util::{calculate_fee_distribution, calculate_fee_split};

fn coin(amount: u128, denom: &str) -> Coin {
    Coin { denom: denom.to_string(), amount }
}

fn pct(p: u64) -> u128 {
    cosmwasm_std::Decimal::percent(p).atomics().u128()
}

fn assert_coins(actual: &Vec<Coin>, expected: &Vec<Coin>) {
    assert_eq!(actual.len(), expected.len());
    for i in 0..actual.len() {
        assert_eq!(actual[i].denom, expected[i].denom);
        assert_eq!(actual[i].amount, expected[i].amount);
    }
}

#[test]
fn test_basic_fee_split() {
    let mut rewards = vec![coin(1000, "token1"), coin(1000, "token2")];
    let fees = vec![("test1".to_string(), pct(10)), ("test2".to_string(), pct(20))];

    let result = calculate_fee_split(&mut rewards, &fees);

    assert_eq!(result[0].0, "test1");
    assert_coins(&result[0].1, &vec![coin(100, "token1"), coin(100, "token2")]);

    assert_eq!(result[1].0, "test2");
    assert_coins(&result[1].1, &vec![coin(200, "token1"), coin(200, "token2")]);

    assert_coins(&rewards, &vec![coin(700, "token1"), coin(700, "token2")]);
}

#[test]
fn test_zero_fees() {
    let mut rewards = vec![coin(1000, "token1")];
    let fees = vec![("test1".to_string(), pct(0))];

    let result = calculate_fee_split(&mut rewards, &fees);

    assert!(result.is_empty());

    assert_coins(&rewards, &vec![coin(1000, "token1")]);
}

#[test]
fn test_no_rewards() {
    let mut rewards = Vec::new();
    let fees = vec![("test1".to_string(), pct(10)), ("test1".to_string(), pct(20))];

    let result = calculate_fee_split(&mut rewards, &fees);

    assert!(result.iter().all(|(_, coins)| coins.is_empty()));
    assert!(rewards.is_empty());
}

#[test]
fn test_single_fee_recipient() {
    let mut rewards = vec![coin(1000, "token1")];
    let fees = vec![("test1".to_string(), pct(100))];

    let result = calculate_fee_split(&mut rewards, &fees);

    assert_coins(&result[0].1, &vec![coin(1000, "token1")]);
    assert!(rewards.is_empty());
}

#[test]
fn test_high_fee_percentages() {
    let mut rewards = vec![coin(1000, "token1")];
    let fees = vec![("test1".to_string(), pct(50)), ("test2".to_string(), pct(50))];

    let result = calculate_fee_split(&mut rewards, &fees);

    assert_coins(&result[0].1, &vec![coin(500, "token1")]);
    assert_coins(&result[1].1, &vec![coin(500, "token1")]);
    assert!(rewards.is_empty());
}

#[test]
fn test_mixed_fee_percentages() {
    let mut rewards = vec![coin(1000, "token1")];
    let fees = vec![("test1".to_string(), pct(10)), ("test2".to_string(), pct(30))];

    let result = calculate_fee_split(&mut rewards, &fees);

    assert_coins(&result[0].1, &vec![coin(100, "token1")]);
    assert_coins(&result[1].1, &vec![coin(300, "token1")]);
    assert_coins(&rewards, &vec![coin(600, "token1")]);
}

#[test]
fn test_rounding_effects() {
    let third = cosmwasm_std::Decimal::from_ratio(1u128, 3u128).atomics().u128();
    let mut rewards = vec![coin(1000, "token1")];
    let fees = vec![("test1".to_string(), third), ("test2".to_string(), third)];

    let result = calculate_fee_split(&mut rewards, &fees);

    assert_coins(&result[0].1, &vec![coin(333, "token1")]);
    assert_coins(&result[1].1, &vec![coin(333, "token1")]);
    assert_coins(&rewards, &vec![coin(334, "token1")]);
}

#[test]
fn test_multiple_recipients_same_fee() {
    let mut rewards = vec![coin(1000, "token1")];
    let fees = vec![("test1".to_string(), pct(25)), ("test2".to_string(), pct(25))];

    let result = calculate_fee_split(&mut rewards, &fees);

    assert_coins(&result[0].1, &vec![coin(250, "token1")]);
    assert_coins(&result[1].1, &vec![coin(250, "token1")]);
    assert_coins(&rewards, &vec![coin(500, "token1")]);
}

#[test]
fn test_multiple_recipients_one_zero() {
    let mut rewards = vec![coin(1000, "token1")];
    let fees = vec![("test1".to_string(), pct(50)), ("test2".to_string(), pct(0))];

    let result = calculate_fee_split(&mut rewards, &fees);

    assert_eq!(result.len(), 1);
    assert_coins(&result[0].1, &vec![coin(500, "token1")]);
    assert_coins(&rewards, &vec![coin(500, "token1")]);
}

#[test]
fn test_distribution_equal() {
    let rewards = vec![coin(1000, "token1")];
    let fees = vec![("test1".to_string(), pct(25)), ("test2".to_string(), pct(25))];

    let result = calculate_fee_distribution(rewards, &fees);

    assert_coins(&result[0].1, &vec![coin(500, "token1")]);
    assert_coins(&result[1].1, &vec![coin(500, "token1")]);
}

#[test]
fn test_distribution_unequal() {
    let rewards = vec![coin(1000, "token1")];
    let fees = vec![("test1".to_string(), pct(5)), ("test2".to_string(), pct(15))];

    let result = calculate_fee_distribution(rewards, &fees);

    assert_coins(&result[0].1, &vec![coin(250, "token1")]);
    assert_coins(&result[1].1, &vec![coin(750, "token1")]);
}

#[test]
fn test_distribution_normalizes_weights() {
    // Weights of 10% and 30% normalize to 25% and 75%: of 1000 units of X,
    // the first recipient gets 250 and the second 750; the dust (none
    // here) is never redistributed.
    let rewards = vec![coin(1000, "X")];
    let fees = vec![("A".to_string(), pct(10)), ("B".to_string(), pct(30))];

    let result = calculate_fee_distribution(rewards, &fees);

    assert_eq!(result.len(), 2);
    assert_eq!(result[0].0, "A");
    assert_coins(&result[0].1, &vec![coin(250, "X")]);
    assert_eq!(result[1].0, "B");
    assert_coins(&result[1].1, &vec![coin(750, "X")]);
}

#[test]
fn test_normalize_merges_sorts_and_drops_zeros() {
    let coins = vec![
        coin(5, "ucoin"),
        coin(0, "uzero"),
        coin(7, "ucash"),
        coin(3, "ucoin"),
    ];
    let out = normalize(coins);
    assert_coins(&out, &vec![coin(7, "ucash"), coin(8, "ucoin")]);
}
