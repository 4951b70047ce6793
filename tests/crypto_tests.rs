use stroopwafel::crypto::{bind_caveat, hmac_sha3, SIGNATURE_SIZE};

#[test]
fn test_hmac_sha3_deterministic() {
    let key = b"secret key";
    let message = b"hello world";

    let sig1 = hmac_sha3(key, message);
    let sig2 = hmac_sha3(key, message);

    assert_eq!(sig1, sig2);
    assert_eq!(sig1.len(), SIGNATURE_SIZE);
}

#[test]
fn test_hmac_sha3_different_keys() {
    let message = b"hello world";

    let sig1 = hmac_sha3(b"key1", message);
    let sig2 = hmac_sha3(b"key2", message);

    assert_ne!(sig1, sig2);
}

#[test]
fn test_hmac_sha3_different_messages() {
    let key = b"secret key";

    let sig1 = hmac_sha3(key, b"message1");
    let sig2 = hmac_sha3(key, b"message2");

    assert_ne!(sig1, sig2);
}

#[test]
fn test_bind_caveat_chaining() {
    let root_key = b"root secret";
    let identifier = b"my macaroon";

    let sig1 = hmac_sha3(root_key, identifier);

    let caveat1 = b"account = alice";
    let sig2 = bind_caveat(&sig1, caveat1);

    let caveat2 = b"action = read";
    let sig3 = bind_caveat(&sig2, caveat2);

    assert_ne!(sig1, sig2);
    assert_ne!(sig2, sig3);
    assert_ne!(sig1, sig3);

    let reconstructed_sig2 = bind_caveat(&sig1, caveat1);
    let reconstructed_sig3 = bind_caveat(&reconstructed_sig2, caveat2);

    assert_eq!(sig2, reconstructed_sig2);
    assert_eq!(sig3, reconstructed_sig3);
}

#[test]
fn hmac_sha3_empty_key_and_message() {
    let tag = hmac_sha3(b"", b"");
    assert_eq!(tag.len(), 32);
    assert_ne!(tag, [0u8; 32]);
    assert_ne!(tag, hmac_sha3(b"", b"x"));
}

#[test]
fn hmac_sha3_accepts_oversized_keys() {
    let long_key = vec![0x5au8; 1000];
    let a = hmac_sha3(&long_key, b"message");
    let b = hmac_sha3(&long_key, b"message");
    assert_eq!(a, b);
    assert_ne!(a, hmac_sha3(&long_key[..999], b"message"));
}

#[test]
fn bind_caveat_is_mac_keyed_by_signature() {
    let sig = hmac_sha3(b"k", b"id");
    assert_eq!(bind_caveat(&sig, b"p"), hmac_sha3(&sig, b"p"));
    assert_ne!(bind_caveat(&sig, b"p"), sig);
}
