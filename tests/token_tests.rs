use stroopwafel::crypto::{hmac_sha3, SIGNATURE_SIZE};
use stroopwafel::verifiers::{AcceptAllVerifier, FnVerifier, RejectAllVerifier, Verifier};
use stroopwafel::{Caveat, Stroopwafel, StroopwafelError};

#[test]
fn test_new_stroopwafel() {
    let root_key = b"this is our super secret key; only we should know it";
    let identifier = b"we used our secret key";
    let location = "http://mybank/";

    let stroopwafel = Stroopwafel::new(root_key, identifier, Some(location));

    assert_eq!(stroopwafel.identifier, identifier);
    assert_eq!(stroopwafel.location, Some(location.to_string()));
    assert_eq!(stroopwafel.caveats.len(), 0);
    assert_eq!(stroopwafel.signature.len(), SIGNATURE_SIZE);

    let stroopwafel2 = Stroopwafel::new(root_key, identifier, Some(location));
    assert_eq!(stroopwafel.signature, stroopwafel2.signature);
}

#[test]
fn test_new_stroopwafel_without_location() {
    let root_key = b"secret";
    let identifier = b"identifier";

    let stroopwafel = Stroopwafel::new(root_key, identifier, None);

    assert_eq!(stroopwafel.location, None);
    assert_eq!(stroopwafel.identifier, identifier);
}

#[test]
fn test_add_first_party_caveat() {
    let root_key = b"secret";
    let mut stroopwafel = Stroopwafel::new(root_key, b"identifier", Some("http://example.com/"));

    let original_signature = stroopwafel.signature;

    stroopwafel.add_first_party_caveat(b"account = alice");

    assert_eq!(stroopwafel.caveats.len(), 1);
    assert_eq!(stroopwafel.caveats[0].caveat_id, b"account = alice");
    assert!(stroopwafel.caveats[0].is_first_party());

    assert_ne!(stroopwafel.signature, original_signature);
}

#[test]
fn test_add_multiple_first_party_caveats() {
    let root_key = b"secret";
    let mut stroopwafel = Stroopwafel::new(root_key, b"identifier", Some("http://example.com/"));

    stroopwafel.add_first_party_caveat(b"account = alice");
    let sig_after_first = stroopwafel.signature;

    stroopwafel.add_first_party_caveat(b"action = read");
    let sig_after_second = stroopwafel.signature;

    assert_eq!(stroopwafel.caveats.len(), 2);
    assert_ne!(sig_after_first, sig_after_second);
}

#[test]
fn test_signature_chaining() {
    let root_key = b"secret";
    let identifier = b"identifier";

    let mut s1 = Stroopwafel::new(root_key, identifier, None);
    let mut s2 = Stroopwafel::new(root_key, identifier, None);

    s1.add_first_party_caveat(b"caveat1");
    s2.add_first_party_caveat(b"caveat1");
    assert_eq!(s1.signature, s2.signature);

    s1.add_first_party_caveat(b"caveat2");
    s2.add_first_party_caveat(b"caveat2");
    assert_eq!(s1.signature, s2.signature);
}

#[test]
fn test_add_third_party_caveat() {
    let root_key = b"secret";
    let mut stroopwafel = Stroopwafel::new(root_key, b"identifier", Some("http://example.com/"));

    stroopwafel.add_third_party_caveat(b"account = alice", b"verification_key_123", "https://auth.example.com");

    assert_eq!(stroopwafel.caveats.len(), 1);
    assert!(stroopwafel.caveats[0].is_third_party());
    assert_eq!(stroopwafel.caveats[0].caveat_id, b"account = alice");
    assert_eq!(stroopwafel.caveats[0].verification_key_id, Some(b"verification_key_123".to_vec()));
    assert_eq!(stroopwafel.caveats[0].location, Some("https://auth.example.com".to_string()));
}

#[test]
fn test_caveat_count() {
    let root_key = b"secret";
    let mut stroopwafel = Stroopwafel::new(root_key, b"identifier", None);

    assert_eq!(stroopwafel.caveat_count(), 0);
    assert!(stroopwafel.is_unrestricted());

    stroopwafel.add_first_party_caveat(b"caveat1");
    assert_eq!(stroopwafel.caveat_count(), 1);
    assert!(!stroopwafel.is_unrestricted());

    stroopwafel.add_first_party_caveat(b"caveat2");
    assert_eq!(stroopwafel.caveat_count(), 2);
}

#[test]
fn test_verify_valid_stroopwafel_no_caveats() {
    let root_key = b"secret";
    let stroopwafel = Stroopwafel::new(root_key, b"identifier", None);

    let verifier = AcceptAllVerifier;
    assert!(stroopwafel.verify(root_key, &verifier, &[]).is_ok());
}

#[test]
fn test_verify_valid_stroopwafel_with_caveats() {
    let root_key = b"secret";
    let mut stroopwafel = Stroopwafel::new(root_key, b"identifier", None);
    stroopwafel.add_first_party_caveat(b"account = alice");
    stroopwafel.add_first_party_caveat(b"action = read");

    let verifier = AcceptAllVerifier;
    assert!(stroopwafel.verify(root_key, &verifier, &[]).is_ok());
}

#[test]
fn test_verify_wrong_root_key() {
    let root_key = b"secret";
    let stroopwafel = Stroopwafel::new(root_key, b"identifier", None);

    let wrong_key = b"wrong_secret";
    let verifier = AcceptAllVerifier;
    let result = stroopwafel.verify(wrong_key, &verifier, &[]);

    assert!(result.is_err());
    assert!(matches!(result.unwrap_err(), StroopwafelError::InvalidSignature));
}

#[test]
fn test_verify_tampered_signature() {
    let root_key = b"secret";
    let mut stroopwafel = Stroopwafel::new(root_key, b"identifier", None);
    stroopwafel.add_first_party_caveat(b"account = alice");

    stroopwafel.signature[0] ^= 0xff;

    let verifier = AcceptAllVerifier;
    let result = stroopwafel.verify(root_key, &verifier, &[]);

    assert!(result.is_err());
    assert!(matches!(result.unwrap_err(), StroopwafelError::InvalidSignature));
}

#[test]
fn test_verify_caveat_violation() {
    let root_key = b"secret";
    let mut stroopwafel = Stroopwafel::new(root_key, b"identifier", None);
    stroopwafel.add_first_party_caveat(b"account = alice");

    let verifier = RejectAllVerifier;
    let result = stroopwafel.verify(root_key, &verifier, &[]);

    assert!(result.is_err());
    assert!(matches!(result.unwrap_err(), StroopwafelError::CaveatViolation(_)));
}

#[test]
fn test_verify_with_custom_verifier() {
    let root_key = b"secret";
    let mut stroopwafel = Stroopwafel::new(root_key, b"identifier", None);
    stroopwafel.add_first_party_caveat(b"account = alice");
    stroopwafel.add_first_party_caveat(b"action = read");

    let verifier = FnVerifier::new(|predicate| {
        if predicate == b"account = alice" || predicate == b"action = read" {
            Ok(())
        } else {
            Err(StroopwafelError::CaveatViolation("Unauthorized caveat".to_string()))
        }
    });

    assert!(stroopwafel.verify(root_key, &verifier, &[]).is_ok());
}

#[test]
fn test_verify_fails_on_specific_caveat() {
    let root_key = b"secret";
    let mut stroopwafel = Stroopwafel::new(root_key, b"identifier", None);
    stroopwafel.add_first_party_caveat(b"account = alice");
    stroopwafel.add_first_party_caveat(b"action = write");

    let verifier = FnVerifier::new(|predicate| {
        if predicate == b"account = alice" || predicate == b"action = read" {
            Ok(())
        } else {
            Err(StroopwafelError::CaveatViolation(format!(
                "Caveat not allowed: {}",
                String::from_utf8_lossy(predicate)
            )))
        }
    });

    let result = stroopwafel.verify(root_key, &verifier, &[]);
    assert!(result.is_err());
    assert!(matches!(result.unwrap_err(), StroopwafelError::CaveatViolation(_)));
}

#[test]
fn test_verify_with_third_party_caveat() {
    let root_key = b"secret";
    let mut stroopwafel = Stroopwafel::new(root_key, b"identifier", None);
    stroopwafel.add_first_party_caveat(b"account = alice");
    stroopwafel.add_third_party_caveat(b"external_auth", b"encrypted_key", "https://auth.example.com");

    let verifier = AcceptAllVerifier;

    let result = stroopwafel.verify(root_key, &verifier, &[]);
    assert!(result.is_err());
}

#[test]
fn test_create_discharge() {
    let verification_key = b"shared_secret";
    let caveat_id = b"auth_required";

    let discharge = Stroopwafel::create_discharge(verification_key, caveat_id, Some("https://auth.example.com"));

    assert_eq!(discharge.identifier, caveat_id);
    assert_eq!(discharge.location, Some("https://auth.example.com".to_string()));
    assert_eq!(discharge.caveats.len(), 0);
}

#[test]
fn test_bind_discharge() {
    let root_key = b"root_secret";
    let primary = Stroopwafel::new(root_key, b"primary", None);

    let verification_key = b"verification_secret";
    let discharge = Stroopwafel::create_discharge(verification_key, b"caveat_id", None);

    let original_discharge_sig = discharge.signature;
    let bound_discharge = primary.bind_discharge(&discharge);

    assert_ne!(bound_discharge.signature, original_discharge_sig);

    assert_eq!(bound_discharge.identifier, discharge.identifier);
    assert_eq!(bound_discharge.caveats, discharge.caveats);
}

#[test]
fn test_prepare_for_request() {
    let root_key = b"secret";
    let mut primary = Stroopwafel::new(root_key, b"primary", None);

    primary.add_third_party_caveat(b"auth_required", b"verification_key", "https://auth.example.com");

    let discharge = Stroopwafel::create_discharge(b"verification_key", b"auth_required", None);

    let stroopwafels = primary.prepare_for_request(vec![discharge]);

    assert_eq!(stroopwafels.len(), 2);
    assert_eq!(stroopwafels[0].identifier, b"primary");
    assert_eq!(stroopwafels[1].identifier, b"auth_required");
}

#[test]
fn test_verify_with_discharge_macaroon() {
    let root_key = b"root_secret";
    let verification_key = b"verification_secret";

    let mut primary = Stroopwafel::new(root_key, b"primary_id", None);
    primary.add_third_party_caveat(b"auth_check", verification_key, "https://auth.example.com");

    let discharge = Stroopwafel::create_discharge(verification_key, b"auth_check", Some("https://auth.example.com"));

    let bound_discharge = primary.bind_discharge(&discharge);

    let verifier = AcceptAllVerifier;
    assert!(primary.verify(root_key, &verifier, &[bound_discharge]).is_ok());
}

#[test]
fn test_verify_fails_without_discharge() {
    let root_key = b"root_secret";
    let verification_key = b"verification_secret";

    let mut primary = Stroopwafel::new(root_key, b"primary_id", None);
    primary.add_third_party_caveat(b"auth_check", verification_key, "https://auth.example.com");

    let verifier = AcceptAllVerifier;
    let result = primary.verify(root_key, &verifier, &[]);

    assert!(result.is_err());
    assert!(matches!(result.unwrap_err(), StroopwafelError::CaveatViolation(_)));
}

#[test]
fn test_verify_fails_with_wrong_discharge() {
    let root_key = b"root_secret";
    let verification_key = b"verification_secret";

    let mut primary = Stroopwafel::new(root_key, b"primary_id", None);
    primary.add_third_party_caveat(b"auth_check", verification_key, "https://auth.example.com");

    let wrong_discharge = Stroopwafel::create_discharge(verification_key, b"wrong_caveat_id", None);

    let bound_discharge = primary.bind_discharge(&wrong_discharge);

    let verifier = AcceptAllVerifier;
    let result = primary.verify(root_key, &verifier, &[bound_discharge]);

    assert!(result.is_err());
}

#[test]
fn test_multiple_third_party_caveats() {
    let root_key = b"root_secret";
    let vk1 = b"verification_key_1";
    let vk2 = b"verification_key_2";

    let mut primary = Stroopwafel::new(root_key, b"primary_id", None);
    primary.add_third_party_caveat(b"auth1", vk1, "https://auth1.example.com");
    primary.add_third_party_caveat(b"auth2", vk2, "https://auth2.example.com");

    let discharge1 = Stroopwafel::create_discharge(vk1, b"auth1", None);
    let discharge2 = Stroopwafel::create_discharge(vk2, b"auth2", None);

    let bound1 = primary.bind_discharge(&discharge1);
    let bound2 = primary.bind_discharge(&discharge2);

    let verifier = AcceptAllVerifier;
    assert!(primary.verify(root_key, &verifier, &[bound1, bound2]).is_ok());
}

#[test]
fn signature_is_fold_of_mac_over_caveats() {
    let mut t = Stroopwafel::new(b"k", b"id", None);
    t.add_first_party_caveat(b"a");
    t.add_third_party_caveat(b"c", b"vk", "loc");
    t.add_first_party_caveat(b"b");
    let expected = hmac_sha3(&hmac_sha3(&hmac_sha3(&hmac_sha3(b"k", b"id"), b"a"), b"vk"), b"b");
    assert_eq!(t.signature, expected);
}

#[test]
fn caveat_order_changes_signature() {
    let mut s1 = Stroopwafel::new(b"k", b"id", None);
    s1.add_first_party_caveat(b"one");
    s1.add_first_party_caveat(b"two");
    let mut s2 = Stroopwafel::new(b"k", b"id", None);
    s2.add_first_party_caveat(b"two");
    s2.add_first_party_caveat(b"one");
    assert_ne!(s1.signature, s2.signature);
}

#[test]
fn every_single_bit_flip_fails_verification() {
    let mut t = Stroopwafel::new(b"k", b"id", None);
    t.add_first_party_caveat(b"a = b");
    for i in 0..SIGNATURE_SIZE {
        for bit in 0..8u8 {
            let mut tampered = t.clone();
            tampered.signature[i] ^= 1 << bit;
            assert_eq!(tampered.verify(b"k", &AcceptAllVerifier, &[]), Err(StroopwafelError::InvalidSignature));
        }
    }
}

#[test]
fn empty_token_verifies() {
    let t = Stroopwafel::new(b"k", b"id", None);
    assert_eq!(t.verify(b"k", &AcceptAllVerifier, &[]), Ok(()));
    assert_eq!(t.verify(b"k2", &AcceptAllVerifier, &[]), Err(StroopwafelError::InvalidSignature));
}

#[test]
fn binding_is_deterministic_and_changes_signature() {
    let p = Stroopwafel::new(b"rk", b"p", None);
    let d = Stroopwafel::create_discharge(b"vk", b"auth", None);
    let b1 = p.bind_discharge(&d);
    let b2 = p.bind_discharge(&d);
    assert_eq!(b1, b2);
    assert_eq!(b1.signature, hmac_sha3(&d.signature, &p.signature));
    assert_ne!(b1.signature, d.signature);
    let mut p2 = p.clone();
    p2.add_first_party_caveat(b"x = 1");
    assert_ne!(p2.bind_discharge(&d).signature, b1.signature);
}

#[test]
fn prepare_for_request_binds_each_discharge_in_order() {
    let mut p = Stroopwafel::new(b"rk", b"p", None);
    p.add_third_party_caveat(b"a", b"vka", "la");
    let d1 = Stroopwafel::create_discharge(b"vka", b"a", None);
    let d2 = Stroopwafel::create_discharge(b"vkb", b"b", None);
    let all = p.prepare_for_request(vec![d1.clone(), d2.clone()]);
    assert_eq!(all.len(), 3);
    assert_eq!(all[0], p);
    assert_eq!(all[1], p.bind_discharge(&d1));
    assert_eq!(all[2], p.bind_discharge(&d2));
    assert_eq!(p.prepare_for_request(vec![]), vec![p.clone()]);
}

#[test]
fn unbound_discharge_is_rejected() {
    let mut p = Stroopwafel::new(b"rk", b"p", None);
    p.add_third_party_caveat(b"auth", b"vk", "loc");
    let d = Stroopwafel::create_discharge(b"vk", b"auth", None);
    assert_eq!(p.verify(b"rk", &AcceptAllVerifier, &[d]), Err(StroopwafelError::InvalidSignature));
}

#[test]
fn discharge_under_wrong_key_is_rejected() {
    let mut p = Stroopwafel::new(b"rk", b"p", None);
    p.add_third_party_caveat(b"auth", b"vk", "loc");
    let d = Stroopwafel::create_discharge(b"other", b"auth", None);
    let bound = p.bind_discharge(&d);
    assert_eq!(p.verify(b"rk", &AcceptAllVerifier, &[bound]), Err(StroopwafelError::InvalidSignature));
}

#[test]
fn first_matching_discharge_is_the_one_consulted() {
    let mut p = Stroopwafel::new(b"rk", b"p", None);
    p.add_third_party_caveat(b"auth", b"vk", "loc");
    let good = p.bind_discharge(&Stroopwafel::create_discharge(b"vk", b"auth", None));
    let bad = p.bind_discharge(&Stroopwafel::create_discharge(b"nope", b"auth", None));
    assert_eq!(p.verify(b"rk", &AcceptAllVerifier, &[good.clone(), bad.clone()]), Ok(()));
    assert_eq!(p.verify(b"rk", &AcceptAllVerifier, &[bad, good]), Err(StroopwafelError::InvalidSignature));
}

#[test]
fn third_party_caveat_without_key_is_invalid_format() {
    let mut p = Stroopwafel::new(b"rk", b"p", None);
    p.caveats.push(Caveat {
        caveat_id: b"auth".to_vec(),
        verification_key_id: None,
        location: Some("loc".to_string()),
    });
    let d = p.bind_discharge(&Stroopwafel::create_discharge(b"vk", b"auth", None));
    assert!(matches!(p.verify(b"rk", &AcceptAllVerifier, &[d]), Err(StroopwafelError::InvalidFormat(_))));
}

#[test]
fn verifier_errors_surface_as_caveat_violations() {
    let mut t = Stroopwafel::new(b"k", b"id", None);
    t.add_first_party_caveat(b"a = b");
    let v = FnVerifier::new(|_p: &[u8]| Err(StroopwafelError::InvalidFormat("bad".to_string())));
    assert!(matches!(t.verify(b"k", &v, &[]), Err(StroopwafelError::CaveatViolation(_))));
    assert!(v.verify_caveat(b"a = b").is_err());
}
