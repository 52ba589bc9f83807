use ed25519_dalek::Verifier as _;
use frost_ed25519 as frost;
use horcrux::audit::Entry;
use horcrux::error::Error;
use horcrux::files::StoredFile;
use horcrux::frost::{KeyPackage, PublicKeyPackage, SigningNonces};
use horcrux::key::SecretKey;
use horcrux::mpc::{
    aggregate_signature, build_signing_package, check_signature, deal_shares,
    deserialize_public_key_package, record_attempt, seal_shares, seal_split,
    frost_signing_key, group_verifying_key, mpc_sign, mpc_sign_with_audit, mpc_split,
    participant_round1, participant_round2, shard_ids, sign_with_nonces, FrostShare, MpcSplit,
    NamedShare, FROST_HEADER_LEN, FROST_MAGIC, FROST_VERSION, GROUP_PUB_FILENAME,
};
use horcrux::shard::Shard;
use horcrux::tx::{derive_address, SignedTx};
use horcrux::idmap::IdMap;

fn key() -> SecretKey {
    let key = k256::SecretKey::random(&mut rand::rngs::OsRng);
    SecretKey::from_bytes(&key.to_bytes().into()).expect("valid key")
}

fn passwords(n: usize, seed: &str) -> Vec<String> {
    (0..n).map(|i| format!("{seed}-{i}")).collect()
}

fn seed_of(key: &SecretKey) -> [u8; 32] {
    key.to_bytes()
}

fn verify_dalek(verifying_key: &[u8; 32], message: &[u8], signature: &[u8; 64]) -> bool {
    let vk = ed25519_dalek::VerifyingKey::from_bytes(verifying_key).expect("valid vk");
    vk.verify(message, &ed25519_dalek::Signature::from_bytes(signature)).is_ok()
}

fn file(share: &NamedShare) -> StoredFile {
    StoredFile { path: share.file_name.clone(), content: Ok(share.share.to_bytes()) }
}

fn split(key: &SecretKey, pws: &[String]) -> (Vec<StoredFile>, Result<Vec<u8>, String>) {
    let MpcSplit { shares, group_pub } = mpc_split(key, 2, 3, pws).expect("split");
    (shares.iter().map(file).collect(), Ok(group_pub))
}

fn sign(
    files: &[StoredFile],
    pws: &[String],
    group: &Result<Vec<u8>, String>,
    message: &[u8],
) -> Result<horcrux::mpc::MpcSignature, Error> {
    mpc_sign(files, pws, group, message, &mut Vec::new())
}

#[test]
fn frost_group_key_matches_mode_a_address() {
    let key = key();
    let seed = seed_of(&key);
    let frost_key = frost_signing_key(&seed).expect("frost key");
    let inner = frost::SigningKey::deserialize(&frost_key.to_scalar()).expect("frost key");
    let vk_bytes = frost::VerifyingKey::from(&inner).serialize().expect("serialize vk");
    assert_eq!(vk_bytes.as_slice(), &derive_address(&seed));
    assert_eq!(frost_key.verifying_key(), derive_address(&seed));
}

#[test]
fn split_2_of_3_any_pair_signs_and_verifies() {
    let key = key();
    let seed = seed_of(&key);
    let pws = passwords(3, "guardian");

    let MpcSplit { shares, group_pub } = mpc_split(&key, 2, 3, &pws).expect("split");
    assert_eq!(shares.len(), 3);
    let group = Ok(group_pub);
    let message = b"pay Alice 1 SOL";

    for combo in [&[0usize, 1], &[0usize, 2], &[1usize, 2]] {
        let chosen: Vec<_> = combo.iter().map(|&i| file(&shares[i])).collect();
        let chosen_pws: Vec<_> = combo.iter().map(|&i| pws[i].clone()).collect();
        let sig = sign(&chosen, &chosen_pws, &group, message).expect("sign");
        assert_eq!(sig.verifying_key, derive_address(&seed));
        assert!(
            verify_dalek(&sig.verifying_key, message, &sig.signature),
            "aggregated signature must verify under plain Ed25519"
        );
    }
}

#[test]
fn signatures_are_non_deterministic() {
    let key = key();
    let pws = passwords(3, "guardian");
    let (files, group) = split(&key, &pws);
    let message = b"nonce per signing operation";
    let a = sign(&files[..2], &pws[..2], &group, message).expect("sign a");
    let b = sign(&files[..2], &pws[..2], &group, message).expect("sign b");
    assert_ne!(a.signature, b.signature);
}

#[test]
fn single_share_is_not_enough() {
    let key = key();
    let pws = passwords(3, "guardian");
    let (files, group) = split(&key, &pws);
    assert!(matches!(
        sign(&files[..1], &pws[..1], &group, b"msg"),
        Err(Error::NotEnoughShares(..))
    ));
}

#[test]
fn mpc_wrong_password_fails_cleanly() {
    let key = key();
    let pws = passwords(3, "guardian");
    let (files, group) = split(&key, &pws);
    let bad = vec!["nope".to_string(), "guardian-1".to_string()];
    assert!(matches!(
        sign(&files[..2], &bad, &group, b"msg"),
        Err(Error::Decrypt { .. })
    ));
}

#[test]
fn shares_from_different_groups_are_rejected() {
    let pws = passwords(3, "guardian");
    let (mut files_a, group_a) = split(&key(), &pws);
    let (mut files_b, _group_b) = split(&key(), &pws);

    let mixed = vec![files_a.swap_remove(0), files_b.swap_remove(1)];
    let mixed_pws = vec![pws[0].clone(), pws[1].clone()];
    assert!(matches!(
        sign(&mixed, &mixed_pws, &group_a, b"msg"),
        Err(Error::MpcGroupMismatch { .. })
    ));
}

#[test]
fn share_file_round_trip() {
    let key = key();
    let pws = passwords(3, "guardian");
    let (files, _group) = split(&key, &pws);
    for file in &files {
        let read = FrostShare::read(&file.content).expect("read");
        let bytes = read.to_bytes();
        assert_eq!(FrostShare::from_bytes(&bytes).expect("parse"), read);
    }
    assert_eq!(shard_ids(&files).expect("ids"), vec![1, 2, 3]);
}

#[test]
fn rejects_wrong_magic_and_version() {
    let key = key();
    let pws = passwords(3, "guardian");
    let (files, _group) = split(&key, &pws);
    let mut bytes = files[0].content.clone().expect("read file");
    bytes[0] = b'X';
    assert!(matches!(
        FrostShare::from_bytes(&bytes),
        Err(Error::InvalidShardFile(_))
    ));
    let bytes = files[0].content.clone().expect("read file");
    let mut bad_version = bytes;
    bad_version[3] = 99;
    assert!(matches!(
        FrostShare::from_bytes(&bad_version),
        Err(Error::InvalidShardFile(_))
    ));
}

#[test]
fn sss_shard_rejected_as_frost_share() {
    let key = key();
    let pws = passwords(3, "guardian");
    let sss = horcrux::init_shards(&key, 2, 3, &pws).expect("sss");
    assert!(matches!(
        FrostShare::read(&Ok(sss[0].shard.to_bytes())),
        Err(Error::InvalidShardFile(_))
    ));
}

#[test]
fn frost_share_rejected_as_sss_shard() {
    let key = key();
    let pws = passwords(3, "guardian");
    let (files, _group) = split(&key, &pws);
    assert!(matches!(
        Shard::read(&files[0].content),
        Err(Error::InvalidShardFile(_))
    ));
}

#[test]
fn a_share_file_has_its_layout() {
    let share = FrostShare {
        min_signers: 2,
        max_signers: 3,
        id: 1,
        salt: [0xaa; 16],
        nonce: [0xbb; 12],
        sealed: vec![0xcc; 300],
    };
    let bytes = share.to_bytes();
    assert_eq!(FROST_HEADER_LEN, 37);
    assert_eq!(bytes.len(), 337);
    assert_eq!(&bytes[..7], b"HX2\x01\x02\x03\x01");
    assert_eq!(&bytes[7..23], &[0xaa; 16]);
    assert_eq!(&bytes[23..35], &[0xbb; 12]);
    assert_eq!(&bytes[35..37], &[0x2c, 0x01]);
    assert_eq!(&bytes[37..], vec![0xcc; 300].as_slice());
    assert_eq!(&FROST_MAGIC, b"HX2");
    assert_eq!(FROST_VERSION, 1);
    assert_eq!(GROUP_PUB_FILENAME, "group.pub");
}

#[test]
fn a_bad_share_file_is_rejected() {
    let share = FrostShare {
        min_signers: 2,
        max_signers: 3,
        id: 1,
        salt: [0; 16],
        nonce: [0; 12],
        sealed: vec![0; 16],
    };
    let bytes = share.to_bytes();
    let text = |bytes: &[u8]| FrostShare::from_bytes(bytes).expect_err("bad share").message();
    assert_eq!(text(&bytes[..36]), "invalid shard file: expected at least 37 bytes, got 36");
    assert_eq!(
        text(&bytes[..52]),
        "invalid shard file: sealed payload is 16 bytes but file is 52 bytes"
    );
    let mut short = share.clone();
    short.sealed.pop();
    assert_eq!(
        text(&short.to_bytes()),
        "invalid shard file: sealed payload is 15 bytes but file is 52 bytes"
    );
    let mut magic = bytes.clone();
    magic[2] = b'1';
    assert_eq!(
        text(&magic),
        "invalid shard file: bad magic bytes; not a horcrux FROST share"
    );
    let mut version = bytes.clone();
    version[3] = 2;
    assert_eq!(text(&version), "invalid shard file: unsupported version 2");
    let gone = FrostShare::read(&Err("gone".to_string())).expect_err("no file");
    assert_eq!(gone.message(), "I/O error: gone");
}

#[test]
fn the_length_field_of_a_long_payload_wraps() {
    let share = FrostShare {
        min_signers: 2,
        max_signers: 3,
        id: 1,
        salt: [0; 16],
        nonce: [0; 12],
        sealed: vec![0; 65536 + 20],
    };
    let bytes = share.to_bytes();
    assert_eq!(&bytes[35..37], &[20, 0]);
    assert!(FrostShare::from_bytes(&bytes).is_err());
}

#[test]
fn split_refuses_bad_parameters() {
    let key = key();
    let pws = passwords(3, "guardian");
    let text = |t: u8, n: u8, words: &[String]| match mpc_split(&key, t, n, words) {
        Ok(_) => panic!("expected an error"),
        Err(e) => e.message(),
    };
    assert_eq!(
        text(1, 3, &pws),
        "invalid secret-sharing parameters: FROST requires a threshold of at least 2"
    );
    assert_eq!(
        text(4, 3, &pws),
        "invalid secret-sharing parameters: threshold (4) must be at most share count (3)"
    );
    assert_eq!(
        text(2, 3, &pws[..2]),
        "invalid secret-sharing parameters: expected 3 passwords, got 2"
    );
}

#[test]
fn a_split_holds_the_key_packages_of_one_group() {
    let key = key();
    let pws = passwords(3, "guardian");
    let MpcSplit { shares, group_pub } = mpc_split(&key, 2, 3, &pws).expect("split");
    let address = derive_address(&seed_of(&key));
    for (i, named) in shares.iter().enumerate() {
        assert_eq!(named.file_name, format!("mpc-{}.hx", i + 1));
        assert_eq!((named.share.min_signers, named.share.max_signers), (2, 3));
        assert_eq!(named.share.id as usize, i + 1);
        assert!(named.share.sealed.len() <= 136 + 16);
        let package = named.share.decrypt(&pws[i]).expect("decrypt");
        let mut identifier = [0u8; 32];
        identifier[0] = i as u8 + 1;
        assert_eq!(package.identifier(), identifier);
        assert_eq!(package.verifying_key(), address);
    }
    let group = deserialize_public_key_package(&group_pub).expect("group");
    for (i, named) in shares.iter().enumerate() {
        let package = named.share.decrypt(&pws[i]).expect("decrypt");
        assert_eq!(package.verifying_share(), group.verifying_shares()[i]);
        assert_eq!(package.min_signers(), 2);
    }
    assert_eq!(group.verifying_key(), address);
    assert_eq!(group.min_signers(), 2);
    assert_eq!(group.members().len(), 3);
    assert_eq!(group.members()[2][0], 3);
    assert_eq!(group_verifying_key(&Ok(group_pub.clone())).expect("key"), address);
    let real = frost::keys::PublicKeyPackage::deserialize(&group_pub).expect("group");
    assert_eq!(real.verifying_key().serialize().expect("key"), address.to_vec());
    assert_eq!(real.min_signers(), Some(2));
}

#[test]
fn a_threshold_of_key_packages_holds_the_key() {
    let key = key();
    let pws = passwords(4, "guardian");
    let (dealt, group) = deal_shares(&key, 3, 4, &pws).expect("deal");
    assert!(group.is_ok());
    let packages: Vec<frost::keys::KeyPackage> = dealt
        .iter()
        .map(|(_, p)| {
            frost::keys::KeyPackage::deserialize(p.as_ref().expect("package")).expect("decode")
        })
        .collect();
    let scalar = frost_signing_key(&seed_of(&key)).expect("key").to_scalar();
    for picked in [[0usize, 1, 2], [3, 1, 0]] {
        let some: Vec<_> = picked.iter().map(|&i| packages[i].clone()).collect();
        let back = frost::keys::reconstruct(&some).expect("reconstruct");
        assert_eq!(back.serialize(), scalar.to_vec());
    }
    assert!(packages.iter().all(|p| *p.min_signers() == 3));
}

#[test]
fn sealing_stops_at_the_first_package_that_is_missing() {
    let dealt = vec![
        ([1u8; 32], Ok(vec![5u8; 10])),
        ([2u8; 32], Err("first".to_string())),
        ([3u8; 32], Err("second".to_string())),
    ];
    match seal_shares(&dealt, 2, 3, &passwords(3, "g")) {
        Err(Error::Mpc(text)) => assert_eq!(text, "first"),
        _ => panic!("expected an error"),
    }
    let sealed = seal_shares(&dealt[..1].to_vec(), 2, 3, &passwords(1, "g")).expect("seal");
    assert_eq!(sealed[0].file_name, "mpc-1.hx");
    assert_eq!(sealed[0].share.sealed.len(), 26);
}

#[test]
fn a_split_is_sealed_as_it_was_dealt() {
    let package = ([1u8; 32], Ok(vec![5u8; 10]));
    let words = passwords(1, "g");
    let sealed = seal_split(&vec![package.clone()], Ok(vec![7, 8]), 2, 3, &words).expect("seal");
    assert_eq!(sealed.group_pub, vec![7, 8]);
    assert_eq!(sealed.shares.len(), 1);
    assert_eq!(sealed.shares[0].file_name, "mpc-1.hx");

    match seal_split(&vec![package], Err("group".to_string()), 2, 3, &words) {
        Err(Error::Mpc(text)) => assert_eq!(text, "group"),
        _ => panic!("expected an error"),
    }
    let missing = vec![([1u8; 32], Err("package".to_string()))];
    match seal_split(&missing, Err("group".to_string()), 2, 3, &words) {
        Err(Error::Mpc(text)) => assert_eq!(text, "package"),
        _ => panic!("expected an error"),
    }
}

#[test]
fn any_threshold_of_shares_signs() {
    let key = key();
    let pws = passwords(5, "guardian");
    let MpcSplit { shares, group_pub } = mpc_split(&key, 3, 5, &pws).expect("split");
    let group = deserialize_public_key_package(&group_pub).expect("group");
    let address = derive_address(&seed_of(&key));
    for picked in [vec![4usize, 0, 2], vec![1, 2, 3], vec![0, 4, 1, 3]] {
        let packages: Vec<KeyPackage> =
            picked.iter().map(|&i| shares[i].share.decrypt(&pws[i]).expect("decrypt")).collect();
        let nonces: Vec<SigningNonces> =
            packages.iter().map(SigningNonces::generate).collect();
        let sig = sign_with_nonces(&group, b"msg", &packages, &nonces).expect("sign");
        assert_eq!(sig.verifying_key, address);
        assert!(verify_dalek(&address, b"msg", &sig.signature));
    }
}

#[test]
fn a_signature_verifies_as_plain_ed25519() {
    let key = key();
    let pws = passwords(3, "guardian");
    let (files, group) = split(&key, &pws);
    let mut sig = sign(&files[1..], &pws[1..], &group, b"msg").expect("sign");
    assert!(sig.verifies(b"msg"));
    assert!(!sig.verifies(b"other"));
    sig.signature[40] ^= 1;
    assert!(!sig.verifies(b"msg"));
}

#[test]
fn a_group_that_cannot_be_read_is_reported() {
    assert!(matches!(group_verifying_key(&Err("gone".to_string())), Err(Error::Io(t)) if t == "gone"));
    match deserialize_public_key_package(b"no group") {
        Err(Error::Mpc(text)) => assert!(text.starts_with("invalid group public package: ")),
        _ => panic!("expected an error"),
    }
    match group_verifying_key(&Ok(Vec::new())) {
        Err(Error::Mpc(text)) => assert!(text.starts_with("invalid group public package: ")),
        _ => panic!("expected an error"),
    }
}

#[test]
fn a_payload_that_is_no_key_package_is_reported() {
    let (salt, nonce) = ([1u8; 16], [2u8; 12]);
    let sealed = horcrux::crypto::seal(b"junk", "word", &salt, &nonce, &[2, 3, 1]).expect("seal");
    let share = FrostShare { min_signers: 2, max_signers: 3, id: 1, salt, nonce, sealed };
    match share.decrypt("word") {
        Err(Error::Mpc(text)) => assert!(text.starts_with("invalid share payload: ")),
        _ => panic!("expected an error"),
    }
    assert!(matches!(share.decrypt("sword"), Err(Error::Decrypt { id: 1, .. })));
}

#[test]
fn signing_reports_what_is_wrong() {
    let key = key();
    let pws = passwords(3, "guardian");
    let (files, group) = split(&key, &pws);
    let text = |files: &[StoredFile], words: &[String], group: &Result<Vec<u8>, String>| {
        sign(files, words, group, b"msg").expect_err("refused").message()
    };
    assert_eq!(
        text(&files[..2], &pws, &group),
        "invalid secret-sharing parameters: expected 2 passwords, got 3"
    );
    assert_eq!(text(&files[..1], &pws[..1], &group), "need 2 shards but only 1 were provided");
    assert_eq!(text(&files[..2], &pws[..2], &Err("gone".to_string())), "I/O error: gone");
    assert_eq!(
        text(&files[..2], &["guardian-0".to_string(), "no".to_string()], &group),
        "failed to decrypt shard 2: authenticated encryption failed: aead::Error"
    );
    let (_, other) = split(&SecretKey::from_bytes(&[1u8; 32]).expect("key"), &pws);
    assert_eq!(
        text(&files[..2], &pws[..2], &other),
        "share \"mpc-1.hx\" belongs to a different FROST group"
    );
}

#[test]
fn the_same_share_twice_does_not_sign() {
    let key = key();
    let pws = passwords(3, "guardian");
    let MpcSplit { shares, group_pub } = mpc_split(&key, 2, 3, &pws).expect("split");
    let twice = [file(&shares[0]), file(&shares[0])];
    let words = [pws[0].clone(), pws[0].clone()];
    match sign(&twice, &words, &Ok(group_pub), b"msg") {
        Err(Error::Mpc(text)) => {
            assert!(text.starts_with("failed to produce signature share: "));
        }
        _ => panic!("expected an error"),
    }
}

#[test]
fn the_audit_log_ends_with_the_signature() {
    let key = key();
    let pws = passwords(3, "guardian");
    let (files, group) = split(&key, &pws);
    let mut log = vec![Entry::signed(1, 1)];
    let sig = mpc_sign_with_audit(&files[..2], &pws[..2], &group, b"msg", &mut log, 76, 9, || 77)
        .expect("sign");
    assert!(verify_dalek(&sig.verifying_key, b"msg", &sig.signature));
    assert_eq!(
        log,
        vec![
            Entry::signed(1, 1),
            Entry::ok(76, 9, 1),
            Entry::ok(76, 9, 2),
            Entry::signed(77, 9),
        ]
    );
    let bad = ["no".to_string(), "guardian-1".to_string()];
    log.clear();
    assert!(
        mpc_sign_with_audit(&files[..2], &bad, &group, b"msg", &mut log, 78, 9, || 79).is_err()
    );
    assert_eq!(log, vec![Entry::fail(78, 9, 1)]);
}

#[test]
fn an_attempt_is_recorded_with_both_times() {
    let mut log = Vec::new();
    record_attempt(&mut log, 5, 8, &vec![(1, true), (3, false)], None);
    record_attempt(&mut log, 6, 9, &vec![(2, true)], Some(7));
    assert_eq!(
        log,
        vec![
            Entry::ok(5, 8, 1),
            Entry::fail(5, 8, 3),
            Entry::ok(6, 9, 2),
            Entry::signed(7, 9),
        ]
    );
}

fn signers(
    key: &SecretKey,
    pws: &[String],
) -> (Vec<KeyPackage>, PublicKeyPackage) {
    let MpcSplit { shares, group_pub } = mpc_split(key, 2, 3, pws).expect("split");
    let packages = shares
        .iter()
        .zip(pws)
        .map(|(s, w)| s.share.decrypt(w).expect("decrypt"))
        .collect();
    (packages, deserialize_public_key_package(&group_pub).expect("group"))
}

#[test]
fn the_rounds_fit_together() {
    let key = key();
    let pws = passwords(3, "guardian");
    let (packages, group) = signers(&key, &pws);

    let mut commitments = IdMap::new();
    let mut drawn = Vec::new();
    for package in &packages[1..] {
        let (identifier, nonces, commitment) = participant_round1(package);
        assert_eq!(identifier, package.identifier());
        assert_eq!(&commitment, nonces.commitments());
        commitments.insert(identifier, commitment.expect("commitment"));
        drawn.push(nonces);
    }
    let signing_package = build_signing_package(commitments, b"msg");
    let mut shares = IdMap::new();
    for (package, nonces) in packages[1..].iter().zip(&drawn) {
        let share = participant_round2(&signing_package, nonces, package).expect("round 2");
        assert_eq!(share.len(), 32);
        shares.insert(package.identifier(), share);
    }
    let sig = aggregate_signature(&signing_package, &shares, &group).expect("aggregate");
    assert!(verify_dalek(&derive_address(&seed_of(&key)), b"msg", &sig.signature));

    // a signer who did not commit, and a share that is missing
    match participant_round2(&signing_package, &drawn[0], &packages[0]) {
        Err(Error::Mpc(text)) => {
            assert!(text.starts_with("failed to produce signature share: "));
        }
        _ => panic!("expected an error"),
    }
    match aggregate_signature(&signing_package, &IdMap::new(), &group) {
        Err(Error::Mpc(text)) => assert!(text.starts_with("failed to aggregate signature: ")),
        _ => panic!("expected an error"),
    }
}

#[test]
fn commitments_are_to_the_nonces_of_the_signer() {
    let key = key();
    let pws = passwords(3, "guardian");
    let (packages, _) = signers(&key, &pws);
    let first = SigningNonces::generate(&packages[0]);
    let bytes = first.commitments().as_ref().expect("commitments");
    let real = frost::round1::SigningCommitments::deserialize(bytes).expect("decode");
    assert_eq!(&real.serialize().expect("encode"), bytes);
    assert_ne!(real.hiding(), real.binding());
    let second = SigningNonces::generate(&packages[0]);
    assert_ne!(first.commitments(), second.commitments());
}

#[test]
fn drawn_nonces_sign() {
    let key = key();
    let pws = passwords(3, "guardian");
    let (packages, group) = signers(&key, &pws);
    let nonces: Vec<SigningNonces> =
        packages.iter().map(SigningNonces::generate).collect();
    let sig = sign_with_nonces(&group, b"msg", &packages, &nonces).expect("sign");
    let again = sign_with_nonces(&group, b"msg", &packages, &nonces).expect("sign");
    assert_eq!(sig, again);
    assert!(verify_dalek(&sig.verifying_key, b"msg", &sig.signature));
}

#[test]
fn an_aggregate_is_checked_before_it_is_handed_out() {
    let key = key();
    let seed = seed_of(&key);
    let address = derive_address(&seed);
    let signature = ed25519_dalek::Signer::sign(
        &ed25519_dalek::SigningKey::from_bytes(&seed),
        b"msg",
    )
    .to_bytes();
    let good = check_signature(Ok(signature.to_vec()), b"msg", &address).expect("checked");
    assert_eq!(good.signature, signature);
    assert_eq!(good.verifying_key, address);
    let text = |r: Result<horcrux::mpc::MpcSignature, Error>| r.expect_err("refused").message();
    assert_eq!(
        text(check_signature(Ok(signature.to_vec()), b"other", &address)),
        "mpc error: aggregated signature failed FROST verification"
    );
    assert_eq!(
        text(check_signature(Ok(vec![0; 10]), b"msg", &address)),
        "mpc error: aggregated signature failed FROST verification"
    );
    assert_eq!(
        text(check_signature(Err("cheater".to_string()), b"msg", &address)),
        "mpc error: failed to aggregate signature: cheater"
    );
}

#[test]
fn a_transaction_is_signed_with_shares() {
    let key = key();
    let pws = passwords(3, "guardian");
    let (files, group) = split(&key, &pws);
    let output = horcrux::sign_transaction_from_mpc_shares(
        &files[..2],
        &pws[..2],
        &group,
        "tx".to_string(),
        |params: &String| params.as_bytes().to_vec(),
        |params: String, signature: [u8; 64], verifying_key: [u8; 32]| {
            Ok(SignedTx { from: verifying_key, signature, raw_base58: params })
        },
    )
    .expect("sign");
    assert_eq!(output.from, derive_address(&seed_of(&key)));
    assert_eq!(output.raw_base58, "tx");
    assert!(verify_dalek(&output.from, b"tx", &output.signature));

    let refused = horcrux::sign_transaction_from_mpc_shares(
        &files[..1],
        &pws[..1],
        &group,
        (),
        |_: &()| Vec::new(),
        |_: (), _: [u8; 64], _: [u8; 32]| Err(Error::Tx("never".to_string())),
    );
    assert!(matches!(refused, Err(Error::NotEnoughShares(2, 1))));
}
