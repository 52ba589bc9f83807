use frost_ed25519 as frost;
use horcrux::error::Error;
use horcrux::files::StoredFile;
use horcrux::frost::SigningNonces;
use horcrux::idmap::IdMap;
use horcrux::key::SecretKey;
use horcrux::mpc::{mpc_split, MpcSplit, NamedShare};
use horcrux::qr_mpc::{
    finalize_signature, gather_commitments, gather_shares, identifier_from_u8, load_participant,
    mpc_sign_package,
    mpc_sign_request, new_session, produce_commitment, produce_signature_share, CommitmentData,
    request_in_session, Participant, RequestData, SignatureShareData,
};
use horcrux::tx::derive_address;

fn file(share: &NamedShare) -> StoredFile {
    StoredFile { path: share.file_name.clone(), content: Ok(share.share.to_bytes()) }
}

fn words() -> Vec<String> {
    vec!["a".to_string(), "b".to_string(), "c".to_string()]
}

fn key(byte: u8) -> SecretKey {
    SecretKey::from_bytes(&[byte; 32]).expect("key")
}

fn split(byte: u8) -> MpcSplit {
    mpc_split(&key(byte), 2, 3, &words()).expect("split")
}

fn participants(split: &MpcSplit, request: &RequestData) -> Vec<Participant> {
    split
        .shares
        .iter()
        .zip(words())
        .map(|(s, w)| {
            load_participant(request, &file(s), &w, &mut Vec::new()).expect("participant")
        })
        .collect()
}

fn committed(participants: &[Participant]) -> (Vec<CommitmentData>, Vec<SigningNonces>) {
    participants.iter().map(|p| produce_commitment(&p.key_package).expect("commit")).unzip()
}

fn identifier(id: u8) -> [u8; 32] {
    let mut bytes = [0u8; 32];
    bytes[0] = id;
    bytes
}

fn error<T>(result: Result<T, Error>) -> String {
    match result {
        Ok(_) => panic!("expected an error"),
        Err(e) => e.message(),
    }
}

#[test]
fn an_air_gapped_attempt_signs() {
    let split = split(3);
    let request = mpc_sign_request(&split.group_pub, b"pay").expect("request");
    let carried = RequestData::from_payload(request.session, &request.to_payload()).expect("parse");
    assert_eq!(carried, request);

    let people = participants(&split, &carried);
    assert_eq!(people[0].session, request.session);
    let (commitments, nonces) = committed(&people[1..]);
    let carried_commitments: Vec<CommitmentData> = commitments
        .iter()
        .map(|c| CommitmentData::from_payload(&c.to_payload()).expect("parse"))
        .collect();
    assert_eq!(carried_commitments, commitments);
    assert_eq!(commitments[0].participant_id, 2);

    let package = mpc_sign_package(&request, &commitments).expect("package");
    let real = frost::SigningPackage::deserialize(&package).expect("package");
    assert_eq!(real.message(), &b"pay".to_vec());
    assert_eq!(real.signing_commitments().len(), 2);

    let mut shares = Vec::new();
    for (person, nonces) in people[1..].iter().zip(nonces) {
        let share = produce_signature_share(&request, &package, &person.key_package, nonces)
            .expect("share");
        let carried = SignatureShareData::from_payload(&share.to_payload()).expect("parse");
        assert_eq!(carried, share);
        shares.push(share);
    }
    let sig = finalize_signature(&package, &shares, &split.group_pub).expect("finalize");
    assert_eq!(sig.verifying_key, derive_address(&[3; 32]));
    let vk = ed25519_dalek::VerifyingKey::from_bytes(&sig.verifying_key).expect("vk");
    let signature = ed25519_dalek::Signature::from_bytes(&sig.signature);
    assert!(ed25519_dalek::Verifier::verify(&vk, b"pay", &signature).is_ok());
}

#[test]
fn any_pair_signs_over_the_air_gap() {
    let split = split(3);
    let request = mpc_sign_request(&split.group_pub, b"pay").expect("request");
    let people = participants(&split, &request);
    for (first, second) in [(0usize, 1usize), (0, 2), (2, 1)] {
        let (c1, n1) = produce_commitment(&people[first].key_package).expect("commit");
        let (c2, n2) = produce_commitment(&people[second].key_package).expect("commit");
        let package = mpc_sign_package(&request, &[c1, c2]).expect("package");
        let s1 = produce_signature_share(&request, &package, &people[first].key_package, n1)
            .expect("share");
        let s2 = produce_signature_share(&request, &package, &people[second].key_package, n2)
            .expect("share");
        let sig = finalize_signature(&package, &[s2, s1], &split.group_pub).expect("finalize");
        assert_eq!(sig.verifying_key, derive_address(&[3; 32]));
        assert!(sig.verifies(b"pay"));
        assert!(!sig.verifies(b"other"));
    }
}

#[test]
fn an_id_has_its_identifier() {
    assert_eq!(identifier_from_u8(7).expect("identifier"), identifier(7));
    assert_eq!(identifier_from_u8(255).expect("identifier"), identifier(255));
    assert_eq!(
        error(identifier_from_u8(0)),
        "mpc error: participant id 0 is invalid (the default split uses 1..=n)"
    );
}

#[test]
fn sessions_are_fresh() {
    assert_ne!(new_session(), new_session());
}

#[test]
fn a_request_keeps_its_session() {
    let split = split(11);
    let request = request_in_session([9; 16], &split.group_pub, b"pay").expect("request");
    assert_eq!(
        request,
        RequestData { session: [9; 16], group_pub: split.group_pub, message: b"pay".to_vec() }
    );
}

#[test]
fn the_order_of_insertion_does_not_matter_to_a_package() {
    let build = |first: (u8, Vec<u8>), second: (u8, Vec<u8>)| {
        let mut commitments = IdMap::new();
        commitments.insert(identifier(first.0), first.1);
        commitments.insert(identifier(second.0), second.1);
        let package = horcrux::frost::SigningPackage { commitments, message: vec![1] };
        package.serialize().expect_err("malformed")
    };
    let good = vec![7u8; 69];
    assert_eq!(
        build((0, good.clone()), (1, Vec::new())),
        build((1, Vec::new()), (0, good)),
    );
}

#[test]
fn a_request_needs_a_usable_group() {
    let text = error(mpc_sign_request(b"junk", b"pay"));
    assert!(text.starts_with("mpc error: invalid group public package: "));
}

#[test]
fn a_request_payload_has_its_layout() {
    let request = RequestData { session: [7; 16], group_pub: vec![1, 2, 3], message: vec![9] };
    let payload = request.to_payload();
    assert_eq!(payload, vec![3, 0, 0, 0, 1, 2, 3, 1, 0, 0, 0, 9]);
    assert_eq!(RequestData::from_payload([7; 16], &payload).expect("parse"), request);
    let empty = RequestData { session: [0; 16], group_pub: vec![], message: vec![] };
    assert_eq!(empty.to_payload(), vec![0; 8]);
    assert_eq!(RequestData::from_payload([0; 16], &[0; 8]).expect("parse"), empty);
}

#[test]
fn a_bad_request_payload_is_rejected() {
    let text = |payload: &[u8]| error(RequestData::from_payload([0; 16], payload));
    assert_eq!(text(&[0; 7]), "hx3 frame error: signing request payload is truncated");
    assert_eq!(
        text(&[1, 0, 0, 0, 0, 0, 0, 0]),
        "hx3 frame error: signing request payload is truncated"
    );
    assert_eq!(
        text(&[255, 255, 255, 255, 0, 0, 0, 0]),
        "hx3 frame error: signing request payload is truncated"
    );
    assert_eq!(
        text(&[0, 0, 0, 0, 0, 0, 0, 0, 5, 5]),
        "hx3 frame error: signing request payload has 2 trailing/truncated bytes"
    );
    assert_eq!(
        text(&[0, 0, 0, 0, 44, 1, 0, 0, 5]),
        "hx3 frame error: signing request payload has 299 trailing/truncated bytes"
    );
}

#[test]
fn commitment_and_share_payloads_have_their_layout() {
    let commitment = CommitmentData { participant_id: 4, commitments: vec![8; 258] };
    let payload = commitment.to_payload();
    assert_eq!(&payload[..3], &[4, 2, 1]);
    assert_eq!(payload.len(), 261);
    assert_eq!(CommitmentData::from_payload(&payload).expect("parse"), commitment);

    let share = SignatureShareData { participant_id: 5, share: vec![6, 7] };
    assert_eq!(share.to_payload(), vec![5, 2, 0, 6, 7]);
    assert_eq!(SignatureShareData::from_payload(&[5, 2, 0, 6, 7]).expect("parse"), share);

    assert_eq!(
        error(CommitmentData::from_payload(&[1, 0])),
        "hx3 frame error: commitment payload is truncated"
    );
    assert_eq!(
        error(CommitmentData::from_payload(&[1, 0, 0, 9])),
        "hx3 frame error: commitment payload length mismatch"
    );
    assert_eq!(
        error(SignatureShareData::from_payload(&[])),
        "hx3 frame error: signature share payload is truncated"
    );
    assert_eq!(
        error(SignatureShareData::from_payload(&[1, 1, 0])),
        "hx3 frame error: signature share payload length mismatch"
    );
}

#[test]
fn gathering_commitments_on_given_values() {
    let members = vec![identifier(1), identifier(2), identifier(3)];
    let ok = |id: u8| (id, Ok(vec![id, id]));
    let map = gather_commitments(&members, 2, &vec![ok(3), ok(1)]).expect("gathered");
    assert_eq!(map.len(), 2);
    assert_eq!(map.get(&identifier(3)), Some(&vec![3, 3]));
    assert_eq!(map.get(&identifier(2)), None);

    let text = |min: usize, items: Vec<(u8, Result<Vec<u8>, String>)>| {
        error(gather_commitments(&members, min, &items))
    };
    assert_eq!(text(2, vec![ok(1)]), "need 2 shards but only 1 were provided");
    assert_eq!(
        text(1, vec![ok(0)]),
        "mpc error: participant id 0 is invalid (the default split uses 1..=n)"
    );
    assert_eq!(
        text(2, vec![ok(1), ok(4)]),
        "mpc error: commitment from participant 4 is not a member of this group"
    );
    assert_eq!(
        text(2, vec![ok(1), ok(1)]),
        "mpc error: duplicate commitment from participant 1"
    );
    assert_eq!(
        text(2, vec![ok(1), (2, Err("bad".to_string()))]),
        "mpc error: invalid commitment from participant 2: bad"
    );
    assert_eq!(
        text(2, vec![(4, Err("bad".to_string())), ok(0)]),
        "mpc error: commitment from participant 4 is not a member of this group"
    );
}

#[test]
fn gathering_shares_on_given_values() {
    let members = vec![identifier(1), identifier(2), identifier(3)];
    let mut committed = IdMap::new();
    committed.insert(identifier(1), vec![1]);
    committed.insert(identifier(3), vec![3]);
    let ok = |id: u8| (id, Ok(vec![id]));
    let map = gather_shares(&members, &committed, &vec![ok(3), ok(1)]).expect("gathered");
    assert_eq!(map.len(), 2);
    assert_eq!(gather_shares(&members, &committed, &vec![]).expect("none").len(), 0);

    let text = |items: Vec<(u8, Result<Vec<u8>, String>)>| {
        error(gather_shares(&members, &committed, &items))
    };
    assert_eq!(
        text(vec![ok(0)]),
        "mpc error: participant id 0 is invalid (the default split uses 1..=n)"
    );
    assert_eq!(
        text(vec![ok(9)]),
        "mpc error: signature share from participant 9 is not a member of this group"
    );
    assert_eq!(
        text(vec![ok(2)]),
        "mpc error: signature share from participant 2 has no commitment in the signing package"
    );
    assert_eq!(
        text(vec![ok(1), ok(1)]),
        "mpc error: duplicate signature share from participant 1"
    );
    assert_eq!(
        text(vec![(1, Err("bad".to_string()))]),
        "mpc error: invalid signature share from participant 1: bad"
    );
}

#[test]
fn the_identifier_map_replaces_in_place() {
    let mut map = IdMap::new();
    assert_eq!(map.len(), 0);
    map.insert(identifier(2), vec![1]);
    map.insert(identifier(1), vec![2]);
    map.insert(identifier(2), vec![3]);
    assert_eq!(map.len(), 2);
    assert_eq!(map.get(&identifier(2)), Some(&vec![3]));
    assert!(map.contains_key(&identifier(1)));
    assert!(!map.contains_key(&identifier(3)));
    let ids: Vec<u8> = map.entries().iter().map(|(id, _)| id[0]).collect();
    assert_eq!(ids, vec![1, 2]);
    // the last byte counts most
    let mut high = [0u8; 32];
    high[31] = 1;
    map.insert(high, vec![4]);
    map.insert(identifier(255), vec![5]);
    map.insert([0u8; 32], vec![6]);
    let values: Vec<u8> = map.entries().iter().map(|(_, v)| v[0]).collect();
    assert_eq!(values, vec![6, 2, 3, 5, 4]);
    let entries = vec![(identifier(9), vec![1]), (identifier(4), vec![2]), (identifier(9), vec![3])];
    let map = IdMap::from_entries(entries);
    assert_eq!(map.len(), 2);
    assert_eq!(map.get(&identifier(9)), Some(&vec![3]));
}

#[test]
fn a_package_needs_distinct_members_and_the_threshold() {
    let split = split(5);
    let request = mpc_sign_request(&split.group_pub, b"pay").expect("request");
    let (commitments, _nonces) = committed(&participants(&split, &request));
    assert_eq!(
        error(mpc_sign_package(&request, &commitments[..1])),
        "need 2 shards but only 1 were provided"
    );
    let twice = [commitments[0].clone(), commitments[0].clone()];
    assert_eq!(
        error(mpc_sign_package(&request, &twice)),
        "mpc error: duplicate commitment from participant 1"
    );
    let mut stranger = commitments[1].clone();
    stranger.participant_id = 7;
    assert_eq!(
        error(mpc_sign_package(&request, &[commitments[0].clone(), stranger])),
        "mpc error: commitment from participant 7 is not a member of this group"
    );
    let mut broken = commitments[1].clone();
    broken.commitments.truncate(10);
    assert!(error(mpc_sign_package(&request, &[commitments[0].clone(), broken]))
        .starts_with("mpc error: invalid commitment from participant 2: "));
    let mut unusable = request.clone();
    unusable.group_pub = vec![1];
    assert!(error(mpc_sign_package(&unusable, &commitments))
        .starts_with("mpc error: invalid group public package: "));
}

#[test]
fn a_package_holds_commitments_in_canonical_form() {
    let split = split(10);
    let request = mpc_sign_request(&split.group_pub, b"pay").expect("request");
    let (mut commitments, _nonces) = committed(&participants(&split, &request));
    let package = mpc_sign_package(&request, &commitments).expect("package");
    commitments[1].commitments.push(0);
    assert_eq!(mpc_sign_package(&request, &commitments).expect("package"), package);
    let decoded = horcrux::frost::SigningPackage::deserialize(&package).expect("decode");
    assert_eq!(decoded.message, b"pay");
    assert_eq!(decoded.commitments.len(), 3);
    assert_eq!(decoded.commitments.get(&identifier(3)), Some(&commitments[2].commitments));
    assert_eq!(decoded.serialize().expect("encode"), package);
}

#[test]
fn a_participant_signs_only_its_own_request() {
    let split = split(6);
    let request = mpc_sign_request(&split.group_pub, b"pay").expect("request");
    let people = participants(&split, &request);
    let (commitments, mut nonces) = committed(&people);
    let package = mpc_sign_package(&request, &commitments[..2]).expect("package");
    let (third, second, first) = (nonces.pop(), nonces.pop(), nonces.pop());

    let mut other = request.clone();
    other.message = b"pay more".to_vec();
    assert_eq!(
        error(produce_signature_share(
            &other,
            &package,
            &people[0].key_package,
            first.expect("nonces"),
        )),
        "mpc error: signing package message does not match the accepted request"
    );
    assert_eq!(
        error(produce_signature_share(
            &request,
            &package,
            &people[2].key_package,
            third.expect("nonces"),
        )),
        "mpc error: signing package does not contain this participant's commitment"
    );
    // fresh nonces that were not committed to
    let (_, fresh) = produce_commitment(&people[1].key_package).expect("commit");
    assert_eq!(
        error(produce_signature_share(&request, &package, &people[1].key_package, fresh)),
        "mpc error: signing package does not contain this participant's commitment"
    );
    assert!(error(produce_signature_share(
        &request,
        b"junk",
        &people[1].key_package,
        second.expect("nonces"),
    ))
    .starts_with("mpc error: invalid signing package: "));
}

#[test]
fn finalizing_refuses_what_does_not_belong() {
    let split = split(7);
    let request = mpc_sign_request(&split.group_pub, b"pay").expect("request");
    let people = participants(&split, &request);
    let (commitments, nonces) = committed(&people[..2]);
    let package = mpc_sign_package(&request, &commitments).expect("package");
    let shares: Vec<SignatureShareData> = people
        .iter()
        .zip(nonces)
        .map(|(p, n)| {
            produce_signature_share(&request, &package, &p.key_package, n).expect("share")
        })
        .collect();
    assert!(finalize_signature(&package, &shares, &split.group_pub).is_ok());

    assert!(error(finalize_signature(&package, &shares[..1], &split.group_pub))
        .starts_with("mpc error: failed to aggregate signature: "));
    let forged = [
        shares[0].clone(),
        SignatureShareData { participant_id: 2, share: shares[0].share.clone() },
    ];
    assert!(error(finalize_signature(&package, &forged, &split.group_pub))
        .starts_with("mpc error: failed to aggregate signature: "));
    let uncommitted = SignatureShareData { participant_id: 3, share: shares[0].share.clone() };
    assert_eq!(
        error(finalize_signature(&package, &[uncommitted], &split.group_pub)),
        "mpc error: signature share from participant 3 has no commitment in the signing package"
    );
    let malformed = SignatureShareData { participant_id: 1, share: vec![0xff; 32] };
    assert!(error(finalize_signature(&package, &[malformed], &split.group_pub))
        .starts_with("mpc error: invalid signature share from participant 1: "));
    assert!(error(finalize_signature(b"junk", &shares, &split.group_pub))
        .starts_with("mpc error: invalid signing package: "));
    assert!(error(finalize_signature(&package, &shares, b"junk"))
        .starts_with("mpc error: invalid group public package: "));
}

#[test]
fn a_participant_of_another_group_is_refused() {
    let ours = split(8);
    let theirs = split(9);
    let request = mpc_sign_request(&ours.group_pub, b"pay").expect("request");
    let mut events = Vec::new();
    let refused = load_participant(&request, &file(&theirs.shares[0]), "a", &mut events);
    assert_eq!(error(refused), "share \"mpc-1.hx\" belongs to a different FROST group");
    assert_eq!(events, vec![(1, true)]);
    let refused = load_participant(&request, &file(&ours.shares[1]), "no", &mut events);
    assert!(matches!(refused, Err(Error::Decrypt { id: 2, .. })));
    assert_eq!(events, vec![(1, true), (2, false)]);
    let gone = StoredFile { path: "x".to_string(), content: Err("gone".to_string()) };
    assert_eq!(error(load_participant(&request, &gone, "a", &mut events)), "I/O error: gone");
    assert_eq!(events.len(), 2);
}
