use horcrux::audit::{Entry, Outcome};
use horcrux::error::Error;
use horcrux::files::StoredFile;
use horcrux::key::SecretKey;
use horcrux::shard::{Shard, SHARD_LEN};
use horcrux::sss;
use horcrux::tx::SignedTx;
use horcrux::{
    init_shards, key_seed, reconstruct, reconstruct_with_audit,
    sign_bitcoin_transaction_from_shards, sign_cosmos_transaction_from_shards,
    sign_transaction_from_shards, NamedShard, SHARD_MAGIC, SHARD_VERSION,
};

fn random_key() -> SecretKey {
    let key = k256::SecretKey::random(&mut rand::rngs::OsRng);
    SecretKey::from_bytes(&key.to_bytes().into()).expect("valid key")
}

fn passwords() -> Vec<String> {
    vec!["one".to_string(), "two".to_string(), "three".to_string()]
}

fn file(shard: &NamedShard) -> StoredFile {
    StoredFile { path: shard.file_name.clone(), content: Ok(shard.shard.to_bytes()) }
}

fn files(shards: &[NamedShard]) -> Vec<StoredFile> {
    shards.iter().map(file).collect()
}

fn message(result: Result<SecretKey, Error>) -> String {
    match result {
        Ok(_) => panic!("expected an error"),
        Err(e) => e.message(),
    }
}

fn scalar(n: u64) -> [u8; 32] {
    let mut bytes = [0u8; 32];
    bytes[24..].copy_from_slice(&n.to_be_bytes());
    bytes
}

#[test]
fn init_and_reconstruct_round_trip() {
    let key = random_key();
    let passwords = passwords();

    let shards = init_shards(&key, 2, 3, &passwords).expect("init");
    assert_eq!(shards.len(), 3);

    let recovered = reconstruct(&files(&shards[..2]), &passwords[..2]).expect("reconstruct");
    assert_eq!(recovered.to_bytes(), key.to_bytes());
}

#[test]
fn lib_wrong_password_fails_cleanly() {
    let key = random_key();
    let passwords = passwords();
    let shards = init_shards(&key, 2, 3, &passwords).expect("init");

    let bad = ["nope".to_string(), "two".to_string()];
    assert!(matches!(
        reconstruct(&files(&shards[..2]), &bad),
        Err(Error::Decrypt { .. })
    ));
}

#[test]
fn too_few_shards_fails() {
    let key = random_key();
    let passwords = passwords();
    let shards = init_shards(&key, 2, 3, &passwords).expect("init");

    assert!(matches!(
        reconstruct(&files(&shards[..1]), &passwords[..1]),
        Err(Error::NotEnoughShares(..))
    ));
}

#[test]
fn shards_from_different_splits_rejected() {
    let key = random_key();
    let passwords = passwords();

    let set_a = init_shards(&key, 2, 3, &passwords).expect("init a");
    let set_b = init_shards(&key, 3, 3, &passwords).expect("init b");

    let mixed = vec![file(&set_a[0]), file(&set_b[0])];
    assert!(matches!(
        reconstruct(&mixed, &passwords[..2]),
        Err(Error::SplitMismatch { .. })
    ));
}

#[test]
fn every_threshold_subset_in_any_order_reconstructs() {
    let key = random_key();
    let passwords = passwords();
    let shards = init_shards(&key, 2, 3, &passwords).expect("init");
    let stored = files(&shards);
    for picked in [vec![0usize, 2], vec![2, 1], vec![2, 0, 1]] {
        let chosen: Vec<StoredFile> = picked.iter().map(|&i| file(&shards[i])).collect();
        let words: Vec<String> = picked.iter().map(|&i| passwords[i].clone()).collect();
        let recovered = reconstruct(&chosen, &words).expect("reconstruct");
        assert_eq!(recovered.to_bytes(), key.to_bytes());
    }
    assert_eq!(stored[0].path, "shard-1.hx");
    assert_eq!(stored[2].path, "shard-3.hx");
}

#[test]
fn the_smallest_and_the_largest_key_round_trip() {
    let mut largest = [0xffu8; 32];
    largest[15] = 0xfe;
    largest[16..].copy_from_slice(&[
        0xba, 0xae, 0xdc, 0xe6, 0xaf, 0x48, 0xa0, 0x3b, 0xbf, 0xd2, 0x5e, 0x8c, 0xd0, 0x36, 0x41,
        0x40,
    ]);
    for bytes in [scalar(1), largest] {
        let key = SecretKey::from_bytes(&bytes).expect("valid key");
        let shards = init_shards(&key, 2, 2, &passwords()[..2]).expect("init");
        let back = reconstruct(&files(&shards), &passwords()[..2]).expect("reconstruct");
        assert_eq!(back.to_bytes(), bytes);
    }
}

#[test]
fn bytes_that_are_no_scalar_are_no_key() {
    assert_eq!(message(SecretKey::from_bytes(&[0u8; 32])), "invalid private key: crypto error");
    assert_eq!(message(SecretKey::from_bytes(&[0xff; 32])), "invalid private key: crypto error");
    let mut order = [0xffu8; 32];
    order[15] = 0xfe;
    order[16..].copy_from_slice(&[
        0xba, 0xae, 0xdc, 0xe6, 0xaf, 0x48, 0xa0, 0x3b, 0xbf, 0xd2, 0x5e, 0x8c, 0xd0, 0x36, 0x41,
        0x41,
    ]);
    assert!(SecretKey::from_bytes(&order).is_err());
}

#[test]
fn init_refuses_bad_parameters() {
    let key = random_key();
    let text = |threshold: u8, count: u8, words: &[String]| match init_shards(
        &key, threshold, count, words,
    ) {
        Ok(_) => panic!("expected an error"),
        Err(e) => e.message(),
    };
    assert_eq!(
        text(0, 3, &passwords()),
        "invalid secret-sharing parameters: threshold (0) must be between 1 and share count (3)"
    );
    assert_eq!(
        text(4, 3, &passwords()),
        "invalid secret-sharing parameters: threshold (4) must be between 1 and share count (3)"
    );
    assert_eq!(
        text(2, 3, &passwords()[..2]),
        "invalid secret-sharing parameters: expected 3 passwords, got 2"
    );
    assert_eq!(
        text(1, 3, &passwords()),
        "secret-sharing error: Threshold cannot be less than 2"
    );
}

#[test]
fn reconstruct_reports_what_is_wrong() {
    let key = random_key();
    let words = passwords();
    let set_a = init_shards(&key, 2, 3, &words).expect("init a");
    let set_b = init_shards(&key, 2, 2, &words[..2]).expect("init b");

    assert_eq!(
        message(reconstruct(&files(&set_a[..2]), &words)),
        "invalid secret-sharing parameters: expected 2 passwords, got 3"
    );
    assert_eq!(
        message(reconstruct(&[], &[])),
        "invalid secret-sharing parameters: no shards provided"
    );
    assert_eq!(
        message(reconstruct(&files(&set_a[..1]), &words[..1])),
        "need 2 shards but only 1 were provided"
    );
    assert_eq!(
        message(reconstruct(&[file(&set_a[0]), file(&set_b[1])], &words[..2])),
        "shard \"shard-2.hx\" has different split parameters (t=2, n=2)"
    );
    assert_eq!(
        message(reconstruct(&files(&set_a[..2]), &["one".to_string(), "no".to_string()])),
        "failed to decrypt shard 2: authenticated encryption failed: aead::Error"
    );
    let twice = [file(&set_a[0]), file(&set_a[0])];
    let word_twice = [words[0].clone(), words[0].clone()];
    assert_eq!(
        message(reconstruct(&twice, &word_twice)),
        "secret-sharing error: Duplicate share detected"
    );
    let unreadable = [
        file(&set_a[0]),
        StoredFile { path: "gone.hx".to_string(), content: Err("no such file".to_string()) },
    ];
    assert_eq!(message(reconstruct(&unreadable, &words[..2])), "I/O error: no such file");
}

#[test]
fn a_tampered_shard_is_rejected() {
    let key = random_key();
    let words = passwords();
    let mut shards = init_shards(&key, 2, 3, &words).expect("init");
    shards[1].shard.sealed[5] ^= 1;
    assert!(matches!(
        reconstruct(&files(&shards[..2]), &words[..2]),
        Err(Error::Decrypt { id: 2, .. })
    ));
    shards[1].shard.sealed[5] ^= 1;
    shards[1].shard.id = 3;
    assert!(matches!(
        reconstruct(&files(&shards[..2]), &words[..2]),
        Err(Error::Decrypt { id: 3, .. })
    ));
}

#[test]
fn a_share_value_that_is_no_scalar_is_rejected() {
    let (salt, nonce) = ([1u8; 16], [2u8; 12]);
    let sealed = horcrux::crypto::seal(&[0xff; 32], "one", &salt, &nonce, &[2, 3, 1])
        .expect("seal");
    let sealed: [u8; 48] = sealed.try_into().expect("48 bytes");
    let shard = Shard::new(2, 3, 1, salt, nonce, sealed);
    let stored = || StoredFile { path: "shard-1.hx".to_string(), content: Ok(shard.to_bytes()) };
    let words = vec!["one".to_string(), "one".to_string()];
    assert_eq!(
        message(reconstruct(&[stored(), stored()], &words)),
        "invalid shard file: invalid share value"
    );
}

#[test]
fn the_audit_log_records_each_decryption() {
    let key = random_key();
    let words = passwords();
    let shards = init_shards(&key, 2, 3, &words).expect("init");
    let mut log: Vec<Entry> = Vec::new();
    let back = reconstruct_with_audit(&files(&shards[..2]), &words[..2], &mut log, 17, 4)
        .expect("reconstruct");
    assert_eq!(back.to_bytes(), key.to_bytes());
    assert_eq!(log, vec![Entry::ok(17, 4, 1), Entry::ok(17, 4, 2)]);

    let bad = ["one".to_string(), "nope".to_string()];
    assert!(reconstruct_with_audit(&files(&shards[..2]), &bad, &mut log, 18, 5).is_err());
    assert_eq!(log.len(), 4);
    assert_eq!(log[2], Entry::ok(18, 5, 1));
    assert_eq!(
        log[3],
        Entry { ts: 18, attempt: 5, shard: Some(2), outcome: Outcome::Refused }
    );
    assert!(reconstruct_with_audit(&files(&shards[..1]), &words[..1], &mut log, 19, 6).is_err());
    assert_eq!(log.len(), 4);
}

#[test]
fn a_shard_file_has_its_layout() {
    let shard = Shard::new(2, 3, 7, [0xaa; 16], [0xbb; 12], [0xcc; 48]);
    let bytes = shard.to_bytes();
    assert_eq!(bytes.len(), SHARD_LEN);
    assert_eq!(SHARD_LEN, 83);
    assert_eq!(&bytes[..7], b"HX1\x01\x02\x03\x07");
    assert_eq!(&bytes[7..23], &[0xaa; 16]);
    assert_eq!(&bytes[23..35], &[0xbb; 12]);
    assert_eq!(&bytes[35..], &[0xcc; 48]);
    assert_eq!(Shard::from_bytes(&bytes).expect("parse"), shard);
    assert_eq!(&SHARD_MAGIC, b"HX1");
    assert_eq!(SHARD_VERSION, 1);
}

#[test]
fn a_bad_shard_file_is_rejected() {
    let bytes = Shard::new(2, 3, 7, [0; 16], [0; 12], [0; 48]).to_bytes();
    let text = |bytes: &[u8]| Shard::from_bytes(bytes).expect_err("bad shard").message();
    assert_eq!(text(&bytes[..82]), "invalid shard file: expected 83 bytes, got 82");
    assert_eq!(text(&[]), "invalid shard file: expected 83 bytes, got 0");
    let mut magic = bytes.clone();
    magic[2] = b'2';
    assert_eq!(text(&magic), "invalid shard file: bad magic bytes; not a horcrux shard");
    let mut version = bytes.clone();
    version[3] = 9;
    assert_eq!(text(&version), "invalid shard file: unsupported version 9");
}

#[test]
fn shares_on_a_known_line_combine() {
    // 42 + 7x at x = 1, 2 and 200
    let share = |x: u64, y: u64| sss::Share { identifier: scalar(x), value: scalar(y) };
    let key = sss::combine(&vec![share(1, 49), share(2, 56)]).expect("combine");
    assert_eq!(key.to_bytes(), scalar(42));
    let key = sss::combine(&vec![share(200, 1442), share(2, 56)]).expect("combine");
    assert_eq!(key.to_bytes(), scalar(42));
    let key = sss::combine(&vec![share(200, 1442), share(2, 56), share(1, 49)]).expect("combine");
    assert_eq!(key.to_bytes(), scalar(42));
}

#[test]
fn combine_reports_what_is_wrong() {
    let share = |x: u64, y: u64| sss::Share { identifier: scalar(x), value: scalar(y) };
    assert_eq!(
        message(sss::combine(&vec![share(1, 49)])),
        "secret-sharing error: Threshold cannot be less than 2"
    );
    assert_eq!(
        message(sss::combine(&vec![share(1, 49), share(0, 42)])),
        "secret-sharing error: An invalid share detected"
    );
    assert_eq!(
        message(sss::combine(&vec![share(1, 49), share(1, 49)])),
        "secret-sharing error: Duplicate share detected"
    );
    // 7x: the secret is zero
    assert_eq!(
        message(sss::combine(&vec![share(1, 7), share(2, 14)])),
        "invalid private key: crypto error"
    );
}

#[test]
fn split_numbers_its_shares_and_any_two_determine_the_key() {
    let key = random_key();
    let shares = sss::split(&key, 2, 4).expect("split");
    assert_eq!(shares.len(), 4);
    for (i, share) in shares.iter().enumerate() {
        assert_eq!(share.identifier, scalar(i as u64 + 1));
    }
    let mut shares = shares;
    let last = shares.pop().expect("share");
    let first = shares.swap_remove(0);
    let back = sss::combine(&vec![last, first]).expect("combine");
    assert_eq!(back.to_bytes(), key.to_bytes());
    assert!(matches!(sss::split(&key, 3, 2), Err(Error::Vsss(_))));
    assert!(matches!(sss::split(&key, 1, 2), Err(Error::Vsss(_))));
}

#[test]
fn signers_get_the_seed_of_the_reconstructed_key() {
    let key = random_key();
    let words = passwords();
    let shards = init_shards(&key, 2, 3, &words).expect("init");
    let stored = files(&shards[..2]);

    let output = sign_transaction_from_shards(&stored, &words[..2], 5u8, |seed: [u8; 32], n: u8| {
        Ok(SignedTx { from: seed, signature: [n; 64], raw_base58: "raw".to_string() })
    })
    .expect("sign");
    assert_eq!(output.from, key_seed(&key).bytes);
    assert_eq!(output.signature, [5u8; 64]);
    assert_eq!(output.raw_base58, "raw");

    let signed = sign_bitcoin_transaction_from_shards(
        &stored,
        &words[..2],
        "params",
        |seed: [u8; 32], params: &str| Ok((seed, params.len())),
    )
    .expect("sign");
    assert_eq!(signed, (key_seed(&key).bytes, 6));

    let refused: Result<(), Error> = sign_cosmos_transaction_from_shards(
        &stored,
        &words[..2],
        (),
        |_: [u8; 32], _: ()| Err(Error::Cosmos("no".to_string())),
    );
    assert!(matches!(refused, Err(Error::Cosmos(text)) if text == "no"));

    let too_few: Result<(), Error> =
        sign_cosmos_transaction_from_shards(&stored[..1], &words[..1], (), |_, _| Ok(()));
    assert!(matches!(too_few, Err(Error::NotEnoughShares(2, 1))));
}
