use contract_abi::{coin, Coin};

fn well_formed(amount: &str, denom: &str) -> bool {
    Coin { denom: denom.to_string(), amount: amount.to_string() }.is_well_formed()
}

#[test]
fn decimal_amount_with_a_denomination_is_well_formed() {
    assert!(well_formed("1015", "earth"));
    assert!(well_formed("0", "a"));
    assert!(well_formed("007", "atom"));
    assert!(well_formed("340282366920938463463374607431768211456", "big"));
    assert!(coin("1015", "earth")[0].is_well_formed());
}

#[test]
fn empty_denomination_is_not_well_formed() {
    assert!(!well_formed("1", ""));
}

#[test]
fn empty_amount_is_not_well_formed() {
    assert!(!well_formed("", "earth"));
}

#[test]
fn amount_with_anything_but_digits_is_not_well_formed() {
    assert!(!well_formed("-1", "earth"));
    assert!(!well_formed("+1", "earth"));
    assert!(!well_formed("1.5", "earth"));
    assert!(!well_formed("1e3", "earth"));
    assert!(!well_formed(" 1", "earth"));
    assert!(!well_formed("1 ", "earth"));
    assert!(!well_formed("12a", "earth"));
    assert!(!well_formed("/", "earth"));
    assert!(!well_formed(":", "earth"));
    assert!(!well_formed("\u{663}", "earth"));
    assert!(!well_formed("1\u{ff11}", "earth"));
}

#[test]
fn coins_that_are_not_well_formed_are_carried_all_the_same() {
    let odd = Coin { denom: String::new(), amount: "not a number".to_string() };
    assert!(!odd.is_well_formed());
    assert_eq!(Coin::decode(&odd.encode()), Ok(odd));
}
