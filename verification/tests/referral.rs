use wenruji_rs::referral::ReferralSM;

#[test]
fn test_gen_code() {
    let mut referral_system = ReferralSM::new();

    let user = "user1".to_string();
    let code = "code123".to_string();

    // Generate a new code
    referral_system.gen_code(&user, &code).unwrap();

    // Attempt to generate a code for the same user should fail
    let result = referral_system.gen_code(&user, &"new_code".to_string());
    assert!(result.is_err());

    // Verify the code is correct
    let stored_code = referral_system.get_code(&user);
    assert_eq!(stored_code, code);
}

#[test]
fn test_add_referee() {
    let mut referral_system = ReferralSM::new();

    let user = "user1".to_string();
    let code = "code".to_string();
    let referee = "referee1".to_string();

    // Generate a new code
    referral_system.gen_code(&user, &code).unwrap();

    // Add a new referee
    referral_system.add_referee(&referee, &code).unwrap();

    // Attempt to add the same referee should fail
    let result = referral_system.add_referee(&referee, &user);
    assert!(result.is_err());

    // Verify the referrer is correct
    let stored_user = referral_system.get_referrer(&referee);
    assert_eq!(stored_user, user);
}

#[test]
fn test_get_referral_struct() {
    let mut referral_system = ReferralSM::new();

    let user = "user1".to_string();
    let code = "code".to_string();
    let referee1 = "referee1".to_string();
    let referee2 = "referee2".to_string();

    // Generate a new code
    referral_system.gen_code(&user, &code).unwrap();

    // Add referees
    referral_system.add_referee(&referee1, &code).unwrap();
    referral_system.add_referee(&referee2, &code).unwrap();

    // Get all referees for the user
    let referees = referral_system.get_referral_struct(&user);
    assert_eq!(referees, vec![referee1, referee2]);
}

#[test]
fn test_get_addr_and_missing_code() {
    let mut referral_system = ReferralSM::new();
    let user = "user1".to_string();
    let code = "code".to_string();
    referral_system.gen_code(&user, &code).unwrap();

    assert_eq!(referral_system.get_addr(&code).unwrap(), user);
    assert!(referral_system.get_addr(&"missing".to_string()).is_err());

    // Binding a referee to an unknown code fails
    let err = referral_system.add_referee(&"referee1".to_string(), &"missing".to_string());
    assert!(err.is_err());
}
