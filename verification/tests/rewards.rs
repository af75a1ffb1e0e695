use wenruji_rs::coins::Coin;
use wenruji_rs::rewards::RewardsSM;

fn coins(amount: u128, denom: &str) -> Vec<Coin> {
    vec![Coin { denom: denom.to_string(), amount }]
}

#[test]
fn get_accrued_with_zero() {
    let state = RewardsSM::new();

    let user = "user".to_string();

    let ret = state.get_accrued(&user);
    assert!(ret.is_empty());
}

#[test]
fn add_accrued_rewards() {
    let mut state = RewardsSM::new();

    let user = "user".to_string();
    state.add_accrued_rewards(&user, &coins(100u128, "ucoin"));
    let ret = state.get_accrued(&user);
    assert_eq!(ret.len(), 1);
    assert_eq!(ret[0].amount, 100u128);
    assert_eq!(ret[0].denom, "ucoin");
}

#[test]
fn claim_accrued() {
    let mut state = RewardsSM::new();

    let user = "user".to_string();

    state.add_accrued_rewards(&user, &coins(100u128, "ucoin"));
    let ret = state.claim_accrued(&user);
    assert_eq!(ret.len(), 1);
    assert_eq!(ret[0].amount, 100u128);
    assert_eq!(ret[0].denom, "ucoin");

    // check that after claim the accrued rewards are empty
    let ret = state.get_accrued(&user);
    assert!(ret.is_empty());
}

#[test]
fn claim_with_zero_accrued() {
    let mut state = RewardsSM::new();

    let user = "user".to_string();

    state.claim_accrued(&user);
    let ret = state.claim_accrued(&user);
    assert!(ret.is_empty());
}

#[test]
fn add_accrued_rewards_with_existing() {
    let mut state = RewardsSM::new();

    let user = "user".to_string();

    state.add_accrued_rewards(&user, &coins(100u128, "ucoin"));
    state.add_accrued_rewards(&user, &coins(100u128, "ucoin"));
    let ret = state.get_accrued(&user);
    assert_eq!(ret.len(), 1);
    assert_eq!(ret[0].amount, 200u128);
    assert_eq!(ret[0].denom, "ucoin");
}

#[test]
fn add_accrued_rewards_multiple_coins() {
    let mut state = RewardsSM::new();

    let user = "user".to_string();
    let mut both = coins(100u128, "ucoin");
    both.push(Coin { denom: "ucash".to_string(), amount: 200u128 });
    state.add_accrued_rewards(&user, &both);
    let ret = state.get_accrued(&user);
    assert_eq!(ret.len(), 2);
    assert_eq!(ret[0].denom, "ucash");
    assert_eq!(ret[0].amount, 200u128);
    assert_eq!(ret[1].denom, "ucoin");
    assert_eq!(ret[1].amount, 100u128);
}
