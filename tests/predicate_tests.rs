use stroopwafel::predicate::{Operator, Predicate};
use stroopwafel::StroopwafelError;

#[test]
fn test_parse_equal() {
    let pred = Predicate::parse("account = alice").unwrap();
    assert_eq!(pred.key, "account");
    assert_eq!(pred.operator, Operator::Equal);
    assert_eq!(pred.value, "alice");
}

#[test]
fn test_parse_not_equal() {
    let pred = Predicate::parse("status != banned").unwrap();
    assert_eq!(pred.key, "status");
    assert_eq!(pred.operator, Operator::NotEqual);
    assert_eq!(pred.value, "banned");
}

#[test]
fn test_parse_less_than() {
    let pred = Predicate::parse("time < 2025-12-31").unwrap();
    assert_eq!(pred.key, "time");
    assert_eq!(pred.operator, Operator::LessThan);
    assert_eq!(pred.value, "2025-12-31");
}

#[test]
fn test_parse_greater_than_or_equal() {
    let pred = Predicate::parse("count >= 10").unwrap();
    assert_eq!(pred.key, "count");
    assert_eq!(pred.operator, Operator::GreaterThanOrEqual);
    assert_eq!(pred.value, "10");
}

#[test]
fn test_parse_with_whitespace() {
    let pred = Predicate::parse("  key  =  value  ").unwrap();
    assert_eq!(pred.key, "key");
    assert_eq!(pred.value, "value");
}

#[test]
fn test_parse_invalid_no_operator() {
    let result = Predicate::parse("just some text");
    assert!(result.is_err());
}

#[test]
fn test_parse_invalid_empty_key() {
    let result = Predicate::parse("= value");
    assert!(result.is_err());
}

#[test]
fn test_parse_invalid_empty_value() {
    let result = Predicate::parse("key =");
    assert!(result.is_err());
}

#[test]
fn test_operator_precedence() {
    let pred = Predicate::parse("x <= 5").unwrap();
    assert_eq!(pred.operator, Operator::LessThanOrEqual);
}

#[test]
fn operator_priority_keeps_key_and_value() {
    let pred = Predicate::parse("x <= 5").unwrap();
    assert_eq!(pred.operator, Operator::LessThanOrEqual);
    assert_eq!(pred.key, "x");
    assert_eq!(pred.value, "5");
}

#[test]
fn parse_splits_at_earliest_operator() {
    let pred = Predicate::parse("a = b <= c").unwrap();
    assert_eq!(pred.key, "a");
    assert_eq!(pred.operator, Operator::Equal);
    assert_eq!(pred.value, "b <= c");
}

#[test]
fn parse_all_two_character_operators() {
    assert_eq!(Predicate::parse("a>=1").unwrap().operator, Operator::GreaterThanOrEqual);
    assert_eq!(Predicate::parse("a<=1").unwrap().operator, Operator::LessThanOrEqual);
    assert_eq!(Predicate::parse("a!=1").unwrap().operator, Operator::NotEqual);
    assert_eq!(Predicate::parse("a>1").unwrap().operator, Operator::GreaterThan);
    assert_eq!(Predicate::parse("a<1").unwrap().operator, Operator::LessThan);
}

#[test]
fn parse_bang_without_equals_is_not_an_operator() {
    assert!(Predicate::parse("a ! b").is_err());
    let pred = Predicate::parse("a! = b").unwrap();
    assert_eq!(pred.key, "a!");
    assert_eq!(pred.operator, Operator::Equal);
}

#[test]
fn parse_trims_unicode_white_space() {
    let pred = Predicate::parse("\u{3000}key\u{a0}=\tvalue\n").unwrap();
    assert_eq!(pred.key, "key");
    assert_eq!(pred.value, "value");
}

#[test]
fn parse_errors_are_invalid_format() {
    assert!(matches!(Predicate::parse(""), Err(StroopwafelError::InvalidFormat(_))));
    assert!(matches!(Predicate::parse("   =   "), Err(StroopwafelError::InvalidFormat(_))));
    assert!(matches!(Predicate::parse("no operator"), Err(StroopwafelError::InvalidFormat(_))));
}

#[test]
fn operator_parse_named_operators() {
    assert_eq!(Operator::parse("="), Some(Operator::Equal));
    assert_eq!(Operator::parse(" != "), Some(Operator::NotEqual));
    assert_eq!(Operator::parse("<"), Some(Operator::LessThan));
    assert_eq!(Operator::parse(">"), Some(Operator::GreaterThan));
    assert_eq!(Operator::parse("<="), Some(Operator::LessThanOrEqual));
    assert_eq!(Operator::parse(">="), Some(Operator::GreaterThanOrEqual));
    assert_eq!(Operator::parse("=="), None);
    assert_eq!(Operator::parse("=<"), None);
    assert_eq!(Operator::parse(""), None);
}

#[test]
fn operator_evaluate_is_byte_lexicographic() {
    assert!(Operator::LessThan.evaluate("alice", "bob"));
    assert!(!Operator::LessThan.evaluate("charlie", "bob"));
    assert!(Operator::LessThan.evaluate("2025-01-01", "2026-01-01"));
    assert!(Operator::Equal.evaluate("same", "same"));
    assert!(Operator::NotEqual.evaluate("a", "b"));
    assert!(Operator::GreaterThanOrEqual.evaluate("b", "b"));
    assert!(Operator::LessThanOrEqual.evaluate("ab", "abc"));
    assert!(Operator::GreaterThan.evaluate("abc", "ab"));
    // Strings compare byte by byte, not as numbers.
    assert!(Operator::LessThan.evaluate("100", "50"));
}
