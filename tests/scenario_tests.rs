use std::collections::HashMap;
use stroopwafel::predicate::{Operator, Predicate};
use stroopwafel::verifiers::{AcceptAllVerifier, FnVerifier};
use stroopwafel::{Stroopwafel, StroopwafelError};

/// Checks one predicate against a context: parsed by the library, compared
/// numerically when both sides are numbers and byte-wise otherwise.
fn check(context: &HashMap<String, String>, predicate: &[u8]) -> Result<(), StroopwafelError> {
    let text = std::str::from_utf8(predicate).map_err(|e| StroopwafelError::InvalidFormat(e.to_string()))?;
    let p = Predicate::parse(text).map_err(|_| StroopwafelError::CaveatViolation(text.to_string()))?;
    let ok = match context.get(&p.key) {
        None => false,
        Some(actual) => match (actual.parse::<f64>(), p.value.parse::<f64>()) {
            (Ok(a), Ok(b)) => match p.operator {
                Operator::Equal => (a - b).abs() < f64::EPSILON,
                Operator::NotEqual => (a - b).abs() >= f64::EPSILON,
                Operator::LessThan => a < b,
                Operator::GreaterThan => a > b,
                Operator::LessThanOrEqual => a <= b,
                Operator::GreaterThanOrEqual => a >= b,
            },
            _ => p.operator.evaluate(actual, &p.value),
        },
    };
    if ok {
        Ok(())
    } else {
        Err(StroopwafelError::CaveatViolation(text.to_string()))
    }
}

/// A verifier over the context made of `pairs`.
fn context(pairs: &[(&str, &str)]) -> FnVerifier<impl Fn(&[u8]) -> Result<(), StroopwafelError>> {
    let map: HashMap<String, String> = pairs.iter().map(|(k, v)| (k.to_string(), v.to_string())).collect();
    FnVerifier::new(move |p: &[u8]| check(&map, p))
}

#[test]
fn scenario_empty_token_verifies() {
    let t = Stroopwafel::new(b"k", b"id", None);
    assert_eq!(t.verify(b"k", &AcceptAllVerifier, &[]), Ok(()));
    assert_eq!(t.verify(b"k2", &AcceptAllVerifier, &[]), Err(StroopwafelError::InvalidSignature));
}

#[test]
fn scenario_context_caveat() {
    let mut t = Stroopwafel::new(b"k", b"id", None);
    t.add_first_party_caveat(b"account = alice");
    assert_eq!(t.verify(b"k", &context(&[("account", "alice")]), &[]), Ok(()));
    assert!(matches!(
        t.verify(b"k", &context(&[("account", "bob")]), &[]),
        Err(StroopwafelError::CaveatViolation(_))
    ));
}

#[test]
fn scenario_numeric_comparison() {
    let mut t = Stroopwafel::new(b"k", b"id", None);
    t.add_first_party_caveat(b"count < 100");
    assert_eq!(t.verify(b"k", &context(&[("count", "50")]), &[]), Ok(()));
    assert!(matches!(
        t.verify(b"k", &context(&[("count", "150")]), &[]),
        Err(StroopwafelError::CaveatViolation(_))
    ));
}

#[test]
fn scenario_operator_priority() {
    let p = Predicate::parse("x <= 5").unwrap();
    assert_eq!(p.operator, Operator::LessThanOrEqual);
    assert_eq!(p.key, "x");
    assert_eq!(p.value, "5");
}

#[test]
fn scenario_third_party_flow() {
    let mut primary = Stroopwafel::new(b"rk", b"p", None);
    primary.add_third_party_caveat(b"auth", b"vk", "https://auth.example.com");
    let mut discharge = Stroopwafel::create_discharge(b"vk", b"auth", None);
    discharge.add_first_party_caveat(b"level >= 5");
    let bound = primary.bind_discharge(&discharge);
    assert_eq!(primary.verify(b"rk", &context(&[("level", "10")]), &[bound.clone()]), Ok(()));
    assert!(matches!(
        primary.verify(b"rk", &context(&[("level", "3")]), &[bound]),
        Err(StroopwafelError::CaveatViolation(_))
    ));
    assert!(matches!(
        primary.verify(b"rk", &context(&[("level", "10")]), &[]),
        Err(StroopwafelError::CaveatViolation(_))
    ));
}

#[test]
fn scenario_serialization_bridge() {
    let mut t = Stroopwafel::new(b"rk", b"id", Some("https://service.example.com"));
    t.add_first_party_caveat(b"account = alice");
    t.add_first_party_caveat(b"action = read");
    let b64 = t.to_base64().unwrap();
    let back = Stroopwafel::from_base64(&b64).unwrap();
    assert_eq!(back.verify(b"rk", &AcceptAllVerifier, &[]), Ok(()));
}

#[test]
fn test_verify_with_discharge_containing_caveats() {
    let root_key = b"root_secret";
    let verification_key = b"verification_secret";

    let mut primary = Stroopwafel::new(root_key, b"primary_id", None);
    primary.add_first_party_caveat(b"account = alice");
    primary.add_third_party_caveat(b"auth_check", verification_key, "https://auth.example.com");

    let mut discharge = Stroopwafel::create_discharge(verification_key, b"auth_check", None);
    discharge.add_first_party_caveat(b"time < 2025-12-31");

    let bound_discharge = primary.bind_discharge(&discharge);

    let verifier = context(&[("account", "alice"), ("time", "2025-01-01")]);

    assert!(primary.verify(root_key, &verifier, &[bound_discharge]).is_ok());
}

#[test]
fn test_verify_discharge_caveat_violation() {
    let root_key = b"root_secret";
    let verification_key = b"verification_secret";

    let mut primary = Stroopwafel::new(root_key, b"primary_id", None);
    primary.add_third_party_caveat(b"auth_check", verification_key, "https://auth.example.com");

    let mut discharge = Stroopwafel::create_discharge(verification_key, b"auth_check", None);
    discharge.add_first_party_caveat(b"level >= 10");

    let bound_discharge = primary.bind_discharge(&discharge);

    let verifier = context(&[("level", "5")]);

    let result = primary.verify(root_key, &verifier, &[bound_discharge]);
    assert!(result.is_err());
    assert!(matches!(result.unwrap_err(), StroopwafelError::CaveatViolation(_)));
}

#[test]
fn discharge_caveat_checked_after_binding_check() {
    let mut primary = Stroopwafel::new(b"rk", b"p", None);
    primary.add_third_party_caveat(b"auth", b"vk", "loc");
    let mut discharge = Stroopwafel::create_discharge(b"vk", b"auth", None);
    discharge.add_first_party_caveat(b"time < 2025-12-31");
    let bound = primary.bind_discharge(&discharge);
    let late = context(&[("time", "2026-01-01")]);
    assert!(matches!(primary.verify(b"rk", &late, &[bound]), Err(StroopwafelError::CaveatViolation(_))));
}
