use exchange::decimal::decimal_string;
use exchange::random_id::random_id;

#[test]
fn random_ids_have_the_asked_length() {
    assert_eq!(random_id(0), "");
    let id = random_id(30);
    assert_eq!(id.len(), 30);
    assert!(id.chars().all(|c| c.is_ascii_alphanumeric()));
}

#[test]
fn decimal_strings() {
    assert_eq!(decimal_string(0), "0");
    assert_eq!(decimal_string(7), "7");
    assert_eq!(decimal_string(10), "10");
    assert_eq!(decimal_string(1234567890), "1234567890");
    assert_eq!(decimal_string(u128::MAX), u128::MAX.to_string());
}

