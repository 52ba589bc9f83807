use aes_gcm::aead::{Aead, Payload};
use aes_gcm::{Aes256Gcm, KeyInit};
use horcrux::crypto::{derive_key, open, random_nonce, random_salt, seal};
use horcrux::error::Error;
use horcrux::text::decimal;

#[test]
fn a_key_is_the_argon2id_hash_of_the_password() {
    let salt = [3u8; 16];
    let params = argon2::Params::new(19456, 2, 1, Some(32)).expect("params");
    let argon =
        argon2::Argon2::new(argon2::Algorithm::Argon2id, argon2::Version::V0x13, params);
    let mut expected = [0u8; 32];
    argon.hash_password_into("päss".as_bytes(), &salt, &mut expected).expect("hash");
    assert_eq!(derive_key("päss", &salt).expect("key"), expected);
    assert_ne!(derive_key("pass", &salt).expect("key"), expected);
    assert_ne!(derive_key("päss", &[4u8; 16]).expect("key"), expected);
}

#[test]
fn sealing_is_aes_256_gcm_under_that_key() {
    let (salt, nonce) = ([1u8; 16], [2u8; 12]);
    let sealed = seal(b"secret", "word", &salt, &nonce, b"abc").expect("seal");
    assert_eq!(sealed.len(), 6 + 16);
    let key = derive_key("word", &salt).expect("key");
    let cipher = Aes256Gcm::new((&key).into());
    let expected = cipher
        .encrypt((&nonce).into(), Payload { msg: b"secret", aad: b"abc" })
        .expect("encrypt");
    assert_eq!(sealed, expected);
}

#[test]
fn opening_gives_back_what_was_sealed() {
    let (salt, nonce) = (random_salt(), random_nonce());
    let sealed = seal(b"secret", "word", &salt, &nonce, &[2, 3, 1]).expect("seal");
    assert_eq!(open(&sealed, "word", &salt, &nonce, &[2, 3, 1]).expect("open"), b"secret");
    assert!(matches!(open(&sealed, "sword", &salt, &nonce, &[2, 3, 1]), Err(Error::Aead(_))));
    assert!(matches!(open(&sealed, "word", &salt, &nonce, &[2, 3, 2]), Err(Error::Aead(_))));
    assert!(matches!(open(&sealed[..15], "word", &salt, &nonce, &[2, 3, 1]), Err(Error::Aead(_))));
    let empty = seal(b"", "word", &salt, &nonce, b"").expect("seal");
    assert_eq!(empty.len(), 16);
    assert_eq!(open(&empty, "word", &salt, &nonce, b"").expect("open"), b"");
}

#[test]
fn salts_and_nonces_are_fresh() {
    assert_ne!(random_salt(), random_salt());
    assert_ne!(random_nonce(), random_nonce());
}

#[test]
fn decimal_numbers_have_no_leading_zeros() {
    assert_eq!(decimal(0), "0");
    assert_eq!(decimal(9), "9");
    assert_eq!(decimal(10), "10");
    assert_eq!(decimal(65535), "65535");
    assert_eq!(decimal(1000200), "1000200");
}

#[test]
fn every_error_has_its_message() {
    let s = |t: &str| t.to_string();
    let cases = vec![
        (Error::InvalidKey(s("x")), "invalid private key: x"),
        (Error::InvalidParams(s("x")), "invalid secret-sharing parameters: x"),
        (Error::NotEnoughShares(12, 3), "need 12 shards but only 3 were provided"),
        (Error::Decrypt { id: 7, reason: s("x") }, "failed to decrypt shard 7: x"),
        (Error::Kdf(s("x")), "key derivation failed: x"),
        (Error::Aead(s("x")), "authenticated encryption failed: x"),
        (Error::InvalidShardFile(s("x")), "invalid shard file: x"),
        (
            Error::SplitMismatch { path: s("a\"b"), t: 2, n: 255 },
            "shard \"a\\\"b\" has different split parameters (t=2, n=255)",
        ),
        (
            Error::MpcGroupMismatch { path: s("mpc-1.hx") },
            "share \"mpc-1.hx\" belongs to a different FROST group",
        ),
        (Error::Mpc(s("x")), "mpc error: x"),
        (Error::Hx3(s("x")), "hx3 frame error: x"),
        (Error::Qr(s("x")), "qr transport error: x"),
        (Error::Vsss(s("x")), "secret-sharing error: x"),
        (Error::Io(s("x")), "I/O error: x"),
        (Error::Tx(s("x")), "transaction error: x"),
        (Error::Bitcoin(s("x")), "bitcoin error: x"),
        (Error::Cosmos(s("x")), "cosmos error: x"),
        (Error::Blocked(s("x")), "access audit blocked the attempt: x"),
        (Error::Audit(s("x")), "audit log error: x"),
    ];
    for (error, text) in cases {
        assert_eq!(error.message(), text);
    }
}
