//! The FROST values and operations that signing rests on.
//!
//! Values are held in the byte form in which they travel and are stored; what
//! the protocol reads of them is held beside it.
use frost_core::round1::Nonce;
use frost_ed25519 as frost;
use vstd::prelude::*;
use vstd::string::*;

use crate::idmap::IdMap;
use crate::secret::{Secret, SecretVec};

verus! {

/// The order of the Ed25519 base point.
pub open spec fn group_order() -> int {
    0x10000000_00000000_00000000_00000000_14DEF9DE_A2F79CD6_5812631A_5CF5D3EDint
}

/// Whether 32 bytes are a nonzero scalar, little-endian.
pub open spec fn valid_scalar(bytes: Seq<u8>) -> bool {
    bytes.len() == 32 && 0 < crate::bytes::le_value(bytes) < group_order()
}

/// The signing scalar of an Ed25519 seed.
pub uninterp spec fn ed25519_scalar(seed: Seq<u8>) -> Seq<u8>;

/// A number is clamped if it is a multiple of 8 from 2^254 up to, not
/// including, 2^255.
pub open spec fn clamped(n: int) -> bool {
    n % 8 == 0
        && 0x40000000_00000000_00000000_00000000_00000000_00000000_00000000_00000000int <= n
        && n < 0x80000000_00000000_00000000_00000000_00000000_00000000_00000000_00000000int
}

/// The number of a scalar is a clamped number modulo the group order.
pub open spec fn reduced_from_clamped(scalar: Seq<u8>) -> bool {
    scalar.len() == 32 && exists|n: int|
        clamped(n) && crate::bytes::le_value(scalar) == #[trigger] (n % group_order())
}

/// `ed25519_dalek::SigningKey::to_scalar`. The scalar is named
/// [`ed25519_scalar`]; it is a clamped number, reduced modulo the group order.
#[verifier::external_body]
pub(crate) fn dalek_scalar(seed: &[u8; 32]) -> (scalar: [u8; 32])
    ensures
        scalar@ == ed25519_scalar(seed@),
        reduced_from_clamped(scalar@),
{
    ed25519_dalek::SigningKey::from_bytes(seed).to_scalar().to_bytes()
}

/// The outcome of taking a scalar, by its little-endian bytes, as a signing
/// key: any but zero will do.
pub open spec fn signing_key_outcome(scalar: Seq<u8>) -> Result<Seq<u8>, Seq<char>> {
    if valid_scalar(scalar) {
        Ok(scalar)
    } else if crate::bytes::le_value(scalar) == 0 {
        Err("Malformed signing key encoding."@)
    } else {
        Err("Error in scalar Field."@)
    }
}

/// `frost::SigningKey::from_scalar`, on a scalar's little-endian bytes. It
/// takes every nonzero scalar and keeps its bytes.
#[verifier::external_body]
fn frost_key_from_scalar(scalar: &[u8; 32]) -> (key: Result<[u8; 32], String>)
    ensures
        crate::error::text_outcome(key) == signing_key_outcome(scalar@),
{
    <frost::Ed25519ScalarField as frost::Field>::deserialize(scalar)
        .map_err(frost::Error::from)
        .and_then(frost::SigningKey::from_scalar)
        .map(|key| key.serialize().try_into().unwrap())
        .map_err(|e| e.to_string())
}

/// The verifying key of a signing scalar.
pub uninterp spec fn frost_public_key(scalar: Seq<u8>) -> Seq<u8>;

/// `frost::VerifyingKey::from` a signing key, in its 32-byte form, which is
/// named [`frost_public_key`].
#[verifier::external_body]
fn frost_verifying_key(scalar: &[u8; 32]) -> (key: [u8; 32])
    requires
        valid_scalar(scalar@),
    ensures
        key@ == frost_public_key(scalar@),
{
    let key = frost::SigningKey::deserialize(scalar).unwrap();
    frost::VerifyingKey::from(&key).serialize().unwrap().try_into().unwrap()
}

/// `ed25519_dalek::SigningKey::verifying_key`: the base point times the
/// signing scalar of the seed, which is the FROST verifying key of that scalar.
#[verifier::external_body]
pub(crate) fn dalek_verifying_key(seed: &[u8; 32]) -> (key: [u8; 32])
    ensures
        key@ == frost_public_key(ed25519_scalar(seed@)),
{
    ed25519_dalek::SigningKey::from_bytes(seed).verifying_key().to_bytes()
}

/// The order of the Ed25519 base point is 2^252 +
/// 27742317777372353535851937790883648493. A scalar is 32 bytes that hold a
/// number below it, little-endian, and a signing scalar is not zero.
pub proof fn scalars_are_numbers_below_the_order(bytes: Seq<u8>)
    ensures
        group_order()
            == 7237005577332262213973186563042994240857116359379907606001950938285454250989int,
        valid_scalar(bytes) <==> bytes.len() == 32 && 0 < crate::bytes::le_value(bytes)
            < 7237005577332262213973186563042994240857116359379907606001950938285454250989int,
        canonical_scalar(bytes) <==> bytes.len() == 32 && crate::bytes::le_value(bytes)
            < 7237005577332262213973186563042994240857116359379907606001950938285454250989int,
{
}

/// Participant number `id` as an identifier: the little-endian scalar.
pub open spec fn identifier_of(id: int) -> Seq<u8> {
    Seq::new(
        32,
        |i: int|
            if i == 0 {
                id as u8
            } else {
                0u8
            },
    )
}

/// Zero bytes hold zero.
proof fn lemma_le_value_zeros(bytes: Seq<u8>)
    requires
        forall|i: int| 0 <= i < bytes.len() ==> bytes[i] == 0,
    ensures
        crate::bytes::le_value(bytes) == 0,
    decreases bytes.len(),
{
    if bytes.len() > 0 {
        lemma_le_value_zeros(bytes.skip(1));
    }
}

/// The identifier of a participant from 1 to 255 is a nonzero scalar.
pub proof fn lemma_identifier_is_valid(id: int)
    requires
        1 <= id <= 255,
    ensures
        valid_scalar(identifier_of(id)),
{
    lemma_le_value_zeros(identifier_of(id).skip(1));
}

/// `frost::Identifier::deserialize`: it takes the little-endian bytes of a
/// nonzero scalar; `frost::Identifier::serialize` gives the same bytes back.
#[verifier::external_body]
pub(crate) fn frost_identifier(bytes: &[u8; 32]) -> (identifier: Result<[u8; 32], String>)
    ensures
        valid_scalar(bytes@) ==> identifier is Ok && identifier->Ok_0@ == bytes@,
        !valid_scalar(bytes@) ==> identifier is Err && identifier->Err_0@
            == "Error in scalar Field."@,
{
    frost::Identifier::deserialize(bytes)
        .map(|identifier| identifier.serialize().try_into().unwrap())
        .map_err(|e| e.to_string())
}

/// What an encoded key package holds.
#[verifier::ext_equal]
pub ghost struct KeyParts {
    /// The participant's identifier.
    pub identifier: Seq<u8>,
    /// The participant's share of the signing scalar, little-endian.
    pub signing_share: Seq<u8>,
    /// The verifying key of the signing share.
    pub verifying_share: Seq<u8>,
    /// The group's verifying key.
    pub verifying_key: Seq<u8>,
    /// How many participants must sign.
    pub min_signers: u16,
}

/// What the bytes of a key package hold, or the text of the error.
pub uninterp spec fn key_package_parts(bytes: Seq<u8>) -> Result<KeyParts, Seq<char>>;

/// A key package's identifier, signing share, verifying share, verifying key
/// and threshold.
type KeyFields = ([u8; 32], [u8; 32], [u8; 32], [u8; 32], u16);

/// The fields as mathematical values.
pub(crate) open spec fn key_fields_view(fields: KeyFields) -> KeyParts {
    KeyParts {
        identifier: fields.0@,
        signing_share: fields.1@,
        verifying_share: fields.2@,
        verifying_key: fields.3@,
        min_signers: fields.4,
    }
}

/// `frost::keys::KeyPackage::deserialize`, then its `identifier`, its
/// `signing_share`, its `verifying_share`, its `verifying_key` and its
/// `min_signers`. The outcome is named [`key_package_parts`]. The signing share
/// is a scalar.
#[verifier::external_body]
fn frost_key_package(bytes: &[u8]) -> (parts: Result<KeyFields, String>)
    ensures
        match key_package_parts(bytes@) {
            Ok(expected) => parts is Ok && key_fields_view(parts->Ok_0) == expected,
            Err(text) => parts is Err && parts->Err_0@ == text,
        },
        parts is Ok ==> canonical_scalar(parts->Ok_0.1@),
{
    frost::keys::KeyPackage::deserialize(bytes)
        .and_then(|kp| {
            let identifier = kp.identifier().serialize().try_into().unwrap();
            let signing_share = kp.signing_share().serialize().try_into().unwrap();
            let verifying_share = kp.verifying_share().serialize()?.try_into().unwrap();
            let verifying_key = kp.verifying_key().serialize()?.try_into().unwrap();
            Ok((identifier, signing_share, verifying_share, verifying_key, *kp.min_signers()))
        })
        .map_err(|e| e.to_string())
}

/// The members' identifiers and verifying shares, the group verifying key and
/// the threshold in an encoded public key package, or the text of the error.
pub uninterp spec fn public_key_package_parts(bytes: Seq<u8>) -> Result<
    (Seq<Seq<u8>>, Seq<Seq<u8>>, Seq<u8>, Option<u16>),
    Seq<char>,
>;

/// Identifiers, or verifying shares, by their bytes.
pub open spec fn identifiers(members: Seq<[u8; 32]>) -> Seq<Seq<u8>> {
    members.map_values(|m: [u8; 32]| m@)
}

/// Whether an identifier is among others.
pub fn is_member(members: &Vec<[u8; 32]>, id: &[u8; 32]) -> (found: bool)
    ensures
        found == identifiers(members@).contains(id@),
        found <==> exists|i: int| 0 <= i < members@.len() && (#[trigger] members@[i])@ == id@,
{
    let ghost ids = identifiers(members@);
    let mut i: usize = 0;
    while i < members.len()
        invariant
            i <= members@.len(),
            ids == identifiers(members@),
            forall|j: int| 0 <= j < i ==> #[trigger] ids[j] != id@,
        decreases members@.len() - i,
    {
        if crate::bytes::same_bytes(&members[i], id) {
            assert(ids[i as int] == id@);
            assert(members@[i as int]@ == id@);
            return true;
        }
        i += 1;
    }
    assert forall|j: int| 0 <= j < members@.len() implies (#[trigger] members@[j])@ != id@ by {
        assert(ids[j] != id@);
    }
    false
}

/// `frost::keys::PublicKeyPackage::deserialize`, then the keys and the values
/// of its `verifying_shares`, its `verifying_key` and its `min_signers`. The
/// outcome is named [`public_key_package_parts`].
#[verifier::external_body]
fn frost_public_key_package(bytes: &[u8]) -> (parts: Result<
    (Vec<[u8; 32]>, Vec<[u8; 32]>, [u8; 32], Option<u16>),
    String,
>)
    ensures
        match public_key_package_parts(bytes@) {
            Ok((members, verifying_shares, verifying_key, min_signers)) => parts is Ok
                && identifiers(parts->Ok_0.0@) == members && identifiers(parts->Ok_0.1@)
                == verifying_shares && parts->Ok_0.2@ == verifying_key && parts->Ok_0.3
                == min_signers,
            Err(text) => parts is Err && parts->Err_0@ == text,
        },
{
    frost::keys::PublicKeyPackage::deserialize(bytes)
        .and_then(|group| {
            let shares = group.verifying_shares();
            let ids = shares.keys().map(|id| id.serialize().try_into().unwrap()).collect();
            let shares: Result<_, frost::Error> = shares.values()
                .map(|share| Ok(share.serialize()?.try_into().unwrap()))
                .collect();
            let key = group.verifying_key().serialize()?.try_into().unwrap();
            Ok((ids, shares?, key, group.min_signers()))
        })
        .map_err(|e| e.to_string())
}

/// What a dealer hands to a participant: the identifier, and the encoded key
/// package or the text of the encoding error.
pub type Dealt = ([u8; 32], Result<Vec<u8>, String>);

/// The signing share of participant `x` on the sharing polynomial `coeffs`.
pub open spec fn share_scalar(coeffs: Seq<int>, x: int) -> Seq<u8> {
    crate::bytes::le_bytes((crate::field::eval(coeffs, x) % group_order()) as nat, 32)
}

/// The verifying share of participant `x` on the sharing polynomial `coeffs`.
pub open spec fn share_key(coeffs: Seq<int>, x: int) -> Seq<u8> {
    frost_public_key(share_scalar(coeffs, x))
}

/// The signing share of participant `x` on the sharing polynomial `coeffs` is
/// zero, so that it has no verifying share.
pub open spec fn is_zero_share(coeffs: Seq<int>, x: int) -> bool {
    crate::field::eval(coeffs, x) % group_order() == 0
}

/// One of the signing shares of the participants from 1 on is zero.
pub open spec fn has_zero_share(coeffs: Seq<int>, share_count: u16) -> bool {
    exists|x: int| 1 <= x <= share_count && #[trigger] is_zero_share(coeffs, x)
}

/// An encoded key package is that of participant `x` on the sharing polynomial
/// `coeffs` of a signing scalar.
pub open spec fn is_key_share(
    key_package: Seq<u8>,
    x: int,
    key: Seq<u8>,
    threshold: u16,
    coeffs: Seq<int>,
) -> bool {
    key_package_parts(key_package) == Ok::<KeyParts, Seq<char>>(
        KeyParts {
            identifier: identifier_of(x),
            signing_share: share_scalar(coeffs, x),
            verifying_share: share_key(coeffs, x),
            verifying_key: frost_public_key(key),
            min_signers: threshold,
        },
    )
}

/// An encoded public key package is that of the group whose members hold the
/// shares on the sharing polynomial `coeffs` of a signing scalar.
pub open spec fn is_share_group(
    group: Seq<u8>,
    key: Seq<u8>,
    share_count: u16,
    threshold: u16,
    coeffs: Seq<int>,
) -> bool {
    public_key_package_parts(group) == Ok::<
        (Seq<Seq<u8>>, Seq<Seq<u8>>, Seq<u8>, Option<u16>),
        Seq<char>,
    >(
        (
            Seq::new(share_count as nat, |i: int| identifier_of(i + 1)),
            Seq::new(share_count as nat, |i: int| share_key(coeffs, i + 1)),
            frost_public_key(key),
            Some(threshold),
        ),
    )
}

/// A sharing polynomial of a signing scalar: as many coefficients as the
/// threshold, of which the lowest is the scalar.
pub open spec fn shares_scalar(coeffs: Seq<int>, key: Seq<u8>, threshold: u16) -> bool {
    valid_scalar(key) && coeffs.len() == threshold && coeffs[0] == crate::bytes::le_value(key)
}

/// What is dealt on the sharing polynomial `coeffs`: the participants are
/// numbered from 1 on. A key package can be encoded if and only if its share is
/// not zero, and the public key package if and only if no share is.
pub open spec fn deals(
    coeffs: Seq<int>,
    dealt: Seq<Dealt>,
    group: Result<Vec<u8>, String>,
    key: Seq<u8>,
    share_count: u16,
    threshold: u16,
) -> bool {
    &&& shares_scalar(coeffs, key, threshold)
    &&& dealt.len() == share_count
    &&& forall|i: int|
        0 <= i < dealt.len() ==> (#[trigger] dealt[i]).0@ == identifier_of(i + 1) && (
        match dealt[i].1 {
            Ok(payload) => !is_zero_share(coeffs, i + 1) && payload@.len() <= 136 && is_key_share(
                payload@,
                i + 1,
                key,
                threshold,
                coeffs,
            ),
            Err(text) => is_zero_share(coeffs, i + 1) && text@ == "Error serializing value."@,
        })
    &&& match group {
        Ok(bytes) => !has_zero_share(coeffs, share_count) && is_share_group(
            bytes@,
            key,
            share_count,
            threshold,
            coeffs,
        ),
        Err(text) => has_zero_share(coeffs, share_count) && text@ == "Error serializing value."@,
    }
}

/// A dealer's split of a signing scalar: all the shares lie on one polynomial.
pub open spec fn is_dealer_split(
    dealt: Seq<Dealt>,
    group: Result<Vec<u8>, String>,
    key: Seq<u8>,
    share_count: u16,
    threshold: u16,
) -> bool {
    exists|coeffs: Seq<int>| deals(coeffs, dealt, group, key, share_count, threshold)
}

/// `frost::keys::split` with the default identifiers, then
/// `frost::keys::KeyPackage::try_from` each secret share, and `serialize` on
/// the key packages and the public key package. Identifiers run from 1 on; all
/// the shares lie on one polynomial with `threshold` coefficients, of which the
/// lowest is the key and the others are left to chance; all the packages name
/// the verifying key of the key and the threshold. A share that is zero has no
/// verifying share, so that neither its key package nor the public key package
/// can be encoded, which is the one way to fail.
#[verifier::external_body]
pub(crate) fn frost_split(key: &[u8; 32], share_count: u16, threshold: u16) -> (split: Result<
    (Vec<Dealt>, Result<Vec<u8>, String>),
    String,
>)
    requires
        valid_scalar(key@),
        2 <= threshold <= share_count <= 255,
    ensures
        split is Ok && is_dealer_split(
            split->Ok_0.0@,
            split->Ok_0.1,
            key@,
            share_count,
            threshold,
        ),
{
    let (list, mut rng) = (frost::keys::IdentifierList::Default, rand::rngs::OsRng);
    frost::SigningKey::deserialize(key)
        .and_then(|key| frost::keys::split(&key, share_count, threshold, list, &mut rng))
        .map(|(shares, group)| {
            let text = |e: frost::Error| e.to_string();
            let dealt = shares.into_iter().map(|(id, share)| {
                let package = frost::keys::KeyPackage::try_from(share).and_then(|p| p.serialize());
                (id.serialize().try_into().unwrap(), package.map_err(text))
            });
            (dealt.collect(), group.serialize().map_err(text))
        })
        .map_err(|e| e.to_string())
}

/// The packages are those that splitting the signing scalar dealt, on the
/// polynomial that was drawn for it.
pub closed spec fn are_dealt(
    deal: (Vec<Dealt>, Result<Vec<u8>, String>),
    scalar: Seq<u8>,
    share_count: u16,
    threshold: u16,
) -> bool {
    exists|bytes: [u8; 32]|
        bytes@ == scalar && #[trigger] call_ensures(
            frost_split,
            (&bytes, share_count, threshold),
            Ok::<(Vec<Dealt>, Result<Vec<u8>, String>), String>(deal),
        )
}

/// Packages are dealt if and only if splitting the scalar with these parameters
/// gave them.
pub(crate) proof fn dealt_packages_come_from_the_split(
    deal: (Vec<Dealt>, Result<Vec<u8>, String>),
    scalar: Seq<u8>,
    share_count: u16,
    threshold: u16,
)
    ensures
        are_dealt(deal, scalar, share_count, threshold) <==> exists|bytes: [u8; 32]|
            bytes@ == scalar && #[trigger] call_ensures(
                frost_split,
                (&bytes, share_count, threshold),
                Ok::<(Vec<Dealt>, Result<Vec<u8>, String>), String>(deal),
            ),
{
}

/// The canonical encoding of the round-1 commitments that the bytes encode, or
/// the text of the error.
pub uninterp spec fn commitments_encoding(bytes: Seq<u8>) -> Result<Seq<u8>, Seq<char>>;

/// Whether bytes are the canonical encoding of round-1 commitments.
pub open spec fn canonical_commitments(bytes: Seq<u8>) -> bool {
    commitments_encoding(bytes) == Ok::<Seq<u8>, Seq<char>>(bytes)
}

/// `frost::round1::SigningCommitments::deserialize`, then `serialize`. The
/// outcome is named [`commitments_encoding`]; encoding again changes nothing.
#[verifier::external_body]
pub(crate) fn frost_commitments(bytes: &[u8]) -> (encoded: Result<Vec<u8>, String>)
    ensures
        crate::error::text_outcome(encoded) == commitments_encoding(bytes@),
        encoded matches Ok(c) ==> canonical_commitments(c@),
{
    frost::round1::SigningCommitments::deserialize(bytes)
        .and_then(|commitments| commitments.serialize())
        .map_err(|e| e.to_string())
}

/// The round-1 nonces that are made of a signing share and 64 random bytes: the
/// hiding nonce, of the first half of them, then the binding nonce, of the
/// second.
pub uninterp spec fn frost_nonces(signing_share: Seq<u8>, random: Seq<u8>) -> Seq<u8>;

/// Bytes hold two scalars that are round-1 nonces made of the signing share.
pub open spec fn are_nonces_of(nonces: Seq<u8>, signing_share: Seq<u8>) -> bool {
    &&& nonces.len() == 64
    &&& canonical_scalar(nonces.take(32))
    &&& canonical_scalar(nonces.skip(32))
    &&& exists|random: [u8; 64]| nonces == #[trigger] frost_nonces(signing_share, random@)
}

/// `frost::round1::commit` for a signing share, then `serialize` on the hiding
/// and on the binding nonce. They are scalars, made of the signing share and
/// random bytes, as [`frost_nonces`] names them; the random bytes are left to
/// chance.
#[verifier::external_body]
fn frost_commit(signing_share: &[u8; 32]) -> (nonces: [u8; 64])
    requires
        canonical_scalar(signing_share@),
    ensures
        canonical_scalar(nonces@.take(32)) && canonical_scalar(nonces@.skip(32)),
        exists|random: [u8; 64]| nonces@ == #[trigger] frost_nonces(signing_share@, random@),
{
    let share = frost::keys::SigningShare::deserialize(signing_share).unwrap();
    let (nonces, _) = frost::round1::commit(&share, &mut rand::rngs::OsRng);
    [nonces.hiding().serialize(), nonces.binding().serialize()].concat().try_into().unwrap()
}

/// Neither of two nonces is zero.
pub open spec fn are_nonzero(nonces: Seq<u8>) -> bool {
    valid_scalar(nonces.take(32)) && valid_scalar(nonces.skip(32))
}

/// The canonical encoding of the commitments to two nonces, neither of them
/// zero.
pub uninterp spec fn nonce_commitments(nonces: Seq<u8>) -> Seq<u8>;

/// The outcome of encoding the commitments to two nonces: a nonce of zero is
/// committed to by the identity, which has no encoding.
pub open spec fn nonce_commitments_outcome(nonces: Seq<u8>) -> Result<Seq<u8>, Seq<char>> {
    if are_nonzero(nonces) {
        Ok(nonce_commitments(nonces))
    } else {
        Err("Error serializing value."@)
    }
}

/// `frost::round1::SigningNonces::from_nonces`, on nonces that
/// `frost_core::round1::Nonce::deserialize` reads, then `serialize` on its
/// `commitments`. The encoding is named [`nonce_commitments`] and is canonical;
/// it fails if and only if one of the nonces is zero.
#[verifier::external_body]
fn frost_nonce_commitments(nonces: &[u8; 64]) -> (commitments: Result<Vec<u8>, String>)
    requires
        canonical_scalar(nonces@.take(32)),
        canonical_scalar(nonces@.skip(32)),
    ensures
        are_nonzero(nonces@) ==> commitments is Ok && commitments->Ok_0@ == nonce_commitments(
            nonces@,
        ) && canonical_commitments(commitments->Ok_0@),
        !are_nonzero(nonces@) ==> commitments is Err && commitments->Err_0@
            == "Error serializing value."@,
{
    Nonce::deserialize(&nonces[..32])
        .and_then(|hiding| {
            let binding = Nonce::deserialize(&nonces[32..])?;
            frost::round1::SigningNonces::from_nonces(hiding, binding).commitments().serialize()
        })
        .map_err(|e| e.to_string())
}

/// The identifiers are scalars and the commitments canonically encoded.
pub open spec fn canonical(commitments: Map<Seq<u8>, Seq<u8>>) -> bool {
    forall|id: Seq<u8>| #[trigger]
        commitments.dom().contains(id) ==> valid_scalar(id) && canonical_commitments(
            commitments[id],
        )
}

/// The encoding of a signing package, or the text of the error.
pub uninterp spec fn signing_package_encoding(
    commitments: Map<Seq<u8>, Seq<u8>>,
    message: Seq<u8>,
) -> Result<Seq<u8>, Seq<char>>;

/// The commitments, by identifier, and the message in an encoded signing
/// package, or the text of the error.
pub uninterp spec fn signing_package_parts(bytes: Seq<u8>) -> Result<
    (Map<Seq<u8>, Seq<u8>>, Seq<u8>),
    Seq<char>,
>;

/// The bytes decode to a signing package of these commitments and this
/// message.
pub open spec fn encodes_package(
    bytes: Seq<u8>,
    commitments: Map<Seq<u8>, Seq<u8>>,
    message: Seq<u8>,
) -> bool {
    signing_package_parts(bytes) == Ok::<(Map<Seq<u8>, Seq<u8>>, Seq<u8>), Seq<char>>(
        (commitments, message),
    )
}

/// `frost::SigningPackage::new`, then `serialize`. The outcome is named
/// [`signing_package_encoding`]; the entries come in the order of their
/// identifiers, so that they are a function of the map. A package of
/// canonically encoded commitments can be encoded, and decoding gives the same
/// commitments and message back.
#[verifier::external_body]
fn frost_encode_package(commitments: &Vec<([u8; 32], Vec<u8>)>, message: &[u8]) -> (encoded: Result<
    Vec<u8>,
    String,
>)
    requires
        crate::idmap::increasing(commitments@),
    ensures
        crate::error::text_outcome(encoded) == signing_package_encoding(
            crate::idmap::map_of(commitments@),
            message@,
        ),
        canonical(crate::idmap::map_of(commitments@)) ==> encoded is Ok && encodes_package(
            encoded->Ok_0@,
            crate::idmap::map_of(commitments@),
            message@,
        ),
{
    let decode = |(id, bytes): &([u8; 32], Vec<u8>)| {
        let commitments = frost::round1::SigningCommitments::deserialize(bytes)?;
        Ok((frost::Identifier::deserialize(id)?, commitments))
    };
    let entries: Result<_, frost::Error> = commitments.iter().map(decode).collect();
    entries
        .and_then(|entries| frost::SigningPackage::new(entries, message).serialize())
        .map_err(|e| e.to_string())
}

/// `frost::SigningPackage::deserialize`, then its `signing_commitments`, each
/// encoded by `serialize`, and its `message`. The outcome is named
/// [`signing_package_parts`]; the identifiers are scalars, and the commitments
/// canonically encoded.
#[verifier::external_body]
fn frost_decode_package(bytes: &[u8]) -> (parts: Result<
    (Vec<([u8; 32], Vec<u8>)>, Vec<u8>),
    String,
>)
    ensures
        match signing_package_parts(bytes@) {
            Ok((commitments, message)) => parts is Ok && crate::idmap::map_of(parts->Ok_0.0@)
                == commitments && parts->Ok_0.1@ == message,
            Err(text) => parts is Err && parts->Err_0@ == text,
        },
        parts is Ok ==> canonical(crate::idmap::map_of(parts->Ok_0.0@)),
{
    frost::SigningPackage::deserialize(bytes)
        .and_then(|package| {
            let entries: Result<_, frost::Error> = package.signing_commitments().iter()
                .map(|(id, c)| Ok((id.serialize().try_into().unwrap(), c.serialize()?)))
                .collect();
            Ok((entries?, package.message().clone()))
        })
        .map_err(|e| e.to_string())
}

/// A participant's signature share over a signing package, or the text of the
/// error.
pub uninterp spec fn frost_signature_share(
    commitments: Map<Seq<u8>, Seq<u8>>,
    message: Seq<u8>,
    nonces: Seq<u8>,
    key_package: Seq<u8>,
) -> Result<Seq<u8>, Seq<char>>;

/// The package holds, under the identifier of the key package, the commitments
/// to the nonces, none of which is zero, and no fewer commitments than the key
/// package's threshold.
pub open spec fn holds_own_commitment(
    commitments: Map<Seq<u8>, Seq<u8>>,
    nonces: Seq<u8>,
    key_package: Seq<u8>,
) -> bool {
    key_package_parts(key_package) matches Ok(parts) && commitments.dom().contains(parts.identifier)
        && commitments_encoding(commitments[parts.identifier]) == Ok::<Seq<u8>, Seq<char>>(
        nonce_commitments(nonces),
    ) && are_nonzero(nonces) && commitments.len() >= parts.min_signers
}

/// Whether 32 bytes are a scalar, zero or not, little-endian.
pub open spec fn canonical_scalar(bytes: Seq<u8>) -> bool {
    bytes.len() == 32 && crate::bytes::le_value(bytes) < group_order()
}

/// `frost::round2::sign`, with `frost::round1::SigningNonces::from_nonces` on
/// nonces that `frost_core::round1::Nonce::deserialize` reads, then `serialize`
/// on the share. The outcome is named [`frost_signature_share`]; the entries
/// come in the order of their identifiers, so that they are a function of the
/// map. A share only comes out if the package holds the participant's own
/// commitment and no fewer than the key package's threshold, and it is a
/// scalar. Where the package does, and its commitments are well-formed, a share
/// does come out, unless the commitments add up to the identity, which has no
/// encoding.
#[verifier::external_body]
fn frost_sign(
    commitments: &Vec<([u8; 32], Vec<u8>)>,
    message: &[u8],
    nonces: &[u8; 64],
    key_package: &[u8],
) -> (share: Result<Vec<u8>, String>)
    requires
        crate::idmap::increasing(commitments@),
    ensures
        crate::error::text_outcome(share) == frost_signature_share(
            crate::idmap::map_of(commitments@),
            message@,
            nonces@,
            key_package@,
        ),
        share matches Ok(bytes) ==> canonical_scalar(bytes@) && holds_own_commitment(
            crate::idmap::map_of(commitments@),
            nonces@,
            key_package@,
        ),
        canonical(crate::idmap::map_of(commitments@)) && holds_own_commitment(
            crate::idmap::map_of(commitments@),
            nonces@,
            key_package@,
        ) ==> share is Ok || share->Err_0@ == "Error in elliptic curve Group."@,
{
    (|| {
        let commitments: Result<_, frost::Error> = commitments.iter().map(|(i, c)| {
            let c = frost::round1::SigningCommitments::deserialize(c)?;
            Ok((frost::Identifier::deserialize(i)?, c))
        }).collect();
        let package = frost::SigningPackage::new(commitments?, message);
        let hiding = Nonce::deserialize(&nonces[..32])?;
        let binding = Nonce::deserialize(&nonces[32..])?;
        let nonces = frost::round1::SigningNonces::from_nonces(hiding, binding);
        let key_package = frost::keys::KeyPackage::deserialize(key_package)?;
        frost::round2::sign(&package, &nonces, &key_package).map(|share| share.serialize())
    })().map_err(|e| e.to_string())
}

/// The outcome of decoding a signature share: the bytes of a scalar, or the
/// text of the error.
pub open spec fn signature_share_encoding(bytes: Seq<u8>) -> Result<Seq<u8>, Seq<char>> {
    if canonical_scalar(bytes) {
        Ok(bytes)
    } else {
        Err("Error in scalar Field."@)
    }
}

/// `frost::round2::SignatureShare::deserialize`, then `serialize`. It takes the
/// bytes of a scalar, and no others, and gives them back.
#[verifier::external_body]
pub(crate) fn frost_share(bytes: &[u8]) -> (share: Result<Vec<u8>, String>)
    ensures
        crate::error::text_outcome(share) == signature_share_encoding(bytes@),
{
    frost::round2::SignatureShare::deserialize(bytes)
        .map(|share| share.serialize())
        .map_err(|e| e.to_string())
}

/// Whether a signature over a message verifies under a verifying key.
pub uninterp spec fn frost_verifies(
    verifying_key: Seq<u8>,
    message: Seq<u8>,
    signature: Seq<u8>,
) -> bool;

/// Whether a plain Ed25519 verifier accepts a signature over a message under a
/// verifying key.
pub uninterp spec fn ed25519_verifies(
    verifying_key: Seq<u8>,
    message: Seq<u8>,
    signature: Seq<u8>,
) -> bool;

/// `ed25519_dalek::VerifyingKey::verify`; a key that cannot be decoded verifies
/// nothing. The answer is named [`ed25519_verifies`].
#[verifier::external_body]
pub(crate) fn dalek_verify(verifying_key: &[u8; 32], message: &[u8], signature: &[u8; 64]) -> (ok:
    bool)
    ensures
        ok == ed25519_verifies(verifying_key@, message@, signature@),
{
    let signature = ed25519_dalek::Signature::from_bytes(signature);
    ed25519_dalek::VerifyingKey::from_bytes(verifying_key)
        .and_then(|key| ed25519_dalek::Verifier::verify(&key, message, &signature))
        .is_ok()
}

/// `frost::VerifyingKey::verify`, on the encoded key and signature; an encoding
/// that cannot be decoded does not verify. The answer is named
/// [`frost_verifies`]. Both verifiers hold the same equation against the same
/// challenge, and FROST decodes canonical encodings only, so that a plain
/// Ed25519 verifier accepts what FROST's accepts.
#[verifier::external_body]
pub(crate) fn frost_verify(verifying_key: &[u8; 32], message: &[u8], signature: &[u8]) -> (ok: bool)
    ensures
        ok == frost_verifies(verifying_key@, message@, signature@),
        ok ==> ed25519_verifies(verifying_key@, message@, signature@),
{
    frost::VerifyingKey::deserialize(verifying_key)
        .and_then(|key| key.verify(message, &frost::Signature::deserialize(signature)?))
        .is_ok()
}

/// The signature that signature shares over a signing package aggregate to, or
/// the text of the error.
pub uninterp spec fn frost_aggregated(
    commitments: Map<Seq<u8>, Seq<u8>>,
    message: Seq<u8>,
    shares: Map<Seq<u8>, Seq<u8>>,
    group: Seq<u8>,
) -> Result<Seq<u8>, Seq<char>>;

/// What is true of shares that aggregate: they come from exactly those who
/// committed, all of them members of the group and no fewer than its
/// threshold.
pub open spec fn is_signing_quorum(
    commitments: Map<Seq<u8>, Seq<u8>>,
    shares: Map<Seq<u8>, Seq<u8>>,
    group: Seq<u8>,
) -> bool {
    &&& shares.dom() == commitments.dom()
    &&& public_key_package_parts(group) matches Ok((members, _, _, min_signers)) && (forall|
        id: Seq<u8>,
    |
        shares.dom().contains(id) ==> #[trigger] members.contains(id)) && (min_signers matches Some(
        min,
    ) ==> shares.len() >= min)
}

/// Distinct participants of one split, no fewer than its threshold.
pub ghost struct Quorum {
    /// The split's sharing polynomial.
    pub coeffs: Seq<int>,
    /// The signing scalar that was split.
    pub key: Seq<u8>,
    /// How many participants the split has.
    pub share_count: u16,
    /// How many participants must sign.
    pub threshold: u16,
    /// The numbers of the participants.
    pub numbers: Seq<int>,
    /// Their encoded key packages.
    pub key_packages: Seq<Seq<u8>>,
}

impl Quorum {
    /// The participants belong to the group: the group is that of the split,
    /// their numbers differ, and each holds the key package of its number.
    pub open spec fn belongs_to(self, group: Seq<u8>) -> bool {
        &&& shares_scalar(self.coeffs, self.key, self.threshold)
        &&& 2 <= self.threshold <= self.share_count <= 255
        &&& is_share_group(group, self.key, self.share_count, self.threshold, self.coeffs)
        &&& self.numbers.len() == self.key_packages.len()
        &&& self.numbers.len() >= self.threshold
        &&& self.numbers.no_duplicates()
        &&& forall|k: int|
            0 <= k < self.numbers.len() ==> 1 <= #[trigger] self.numbers[k] <= self.share_count
                && is_key_share(
                self.key_packages[k],
                self.numbers[k],
                self.key,
                self.threshold,
                self.coeffs,
            )
    }

    /// The identifiers of the participants.
    pub open spec fn identifiers(self) -> Set<Seq<u8>> {
        self.numbers.map_values(|x: int| identifier_of(x)).to_set()
    }

    /// The signature shares are those that the participants make for a signing
    /// package in which exactly they committed.
    pub open spec fn makes_shares(
        self,
        nonces: Seq<Seq<u8>>,
        commitments: Map<Seq<u8>, Seq<u8>>,
        message: Seq<u8>,
        shares: Map<Seq<u8>, Seq<u8>>,
    ) -> bool {
        &&& commitments.dom() == self.identifiers()
        &&& shares.dom() == self.identifiers()
        &&& nonces.len() == self.numbers.len()
        &&& forall|k: int|
            0 <= k < nonces.len() ==> (#[trigger] nonces[k]).len() == 64
                && frost_signature_share(commitments, message, nonces[k], self.key_packages[k])
                == Ok::<Seq<u8>, Seq<char>>(shares[identifier_of(self.numbers[k])])
    }
}

/// Key packages of distinct participants of the split of the group, no fewer
/// than its threshold.
pub open spec fn are_quorum_packages(key_packages: Seq<Seq<u8>>, group: Seq<u8>) -> bool {
    exists|quorum: Quorum| #[trigger]
        quorum.belongs_to(group) && quorum.key_packages == key_packages
}

/// The signature shares are made for the signing package by distinct
/// participants of the split of the group, no fewer than its threshold, who are
/// exactly those who committed in it.
pub open spec fn are_quorum_shares(
    commitments: Map<Seq<u8>, Seq<u8>>,
    message: Seq<u8>,
    shares: Map<Seq<u8>, Seq<u8>>,
    group: Seq<u8>,
) -> bool {
    exists|quorum: Quorum, nonces: Seq<Seq<u8>>|
        quorum.belongs_to(group) && #[trigger] quorum.makes_shares(
            nonces,
            commitments,
            message,
            shares,
        )
}

/// `frost::aggregate`, then `serialize` on the signature. The outcome is named
/// [`frost_aggregated`]; the entries come in the order of their identifiers, so
/// that they are a function of the maps. A signature only comes out of the
/// shares of a signing quorum. Of shares that a quorum of one split makes for
/// the package a signature does come out, of 64 bytes, and it verifies under
/// the group's key: with the Lagrange coefficients of those who committed the
/// shares of the signing scalar add up to the scalar.
#[verifier::external_body]
fn frost_aggregate(
    commitments: &Vec<([u8; 32], Vec<u8>)>,
    message: &[u8],
    shares: &Vec<([u8; 32], Vec<u8>)>,
    group: &[u8],
) -> (signature: Result<Vec<u8>, String>)
    requires
        crate::idmap::increasing(commitments@),
        crate::idmap::increasing(shares@),
    ensures
        crate::error::text_outcome(signature) == frost_aggregated(
            crate::idmap::map_of(commitments@),
            message@,
            crate::idmap::map_of(shares@),
            group@,
        ),
        signature is Ok ==> is_signing_quorum(
            crate::idmap::map_of(commitments@),
            crate::idmap::map_of(shares@),
            group@,
        ),
        are_quorum_shares(
            crate::idmap::map_of(commitments@),
            message@,
            crate::idmap::map_of(shares@),
            group@,
        ) ==> signature is Ok && signature->Ok_0@.len() == 64 && frost_verifies(
            group_key(group@),
            message@,
            signature->Ok_0@,
        ),
{
    (|| {
        let id = |bytes: &[u8; 32]| frost::Identifier::deserialize(bytes);
        let commitments: Result<_, frost::Error> = commitments.iter()
            .map(|(i, c)| Ok((id(i)?, frost::round1::SigningCommitments::deserialize(c)?)))
            .collect();
        let shares: Result<_, frost::Error> = shares.iter()
            .map(|(i, s)| Ok((id(i)?, frost::round2::SignatureShare::deserialize(s)?)))
            .collect();
        let package = frost::SigningPackage::new(commitments?, message);
        let group = frost::keys::PublicKeyPackage::deserialize(group)?;
        frost::aggregate(&package, &shares?, &group)?.serialize()
    })().map_err(|e| e.to_string())
}

/// A FROST signing key: a nonzero scalar. Its view is the scalar's
/// little-endian bytes.
pub struct SigningKey {
    scalar: Secret<32>,
}

impl View for SigningKey {
    type V = Seq<u8>;

    closed spec fn view(&self) -> Seq<u8> {
        self.scalar@
    }
}

impl SigningKey {
    #[verifier::type_invariant]
    spec fn inv(self) -> bool {
        valid_scalar(self.scalar@)
    }

    /// The signing key of a scalar, given by its little-endian bytes.
    pub fn from_scalar(scalar: &[u8; 32]) -> (key: Result<SigningKey, String>)
        ensures
            crate::error::text_outcome(key) == signing_key_outcome(scalar@),
    {
        match frost_key_from_scalar(scalar) {
            Ok(bytes) => Ok(SigningKey { scalar: Secret { bytes } }),
            Err(e) => Err(e),
        }
    }

    /// The scalar's little-endian bytes.
    pub fn to_scalar(&self) -> (scalar: [u8; 32])
        ensures
            scalar@ == self@,
            valid_scalar(scalar@),
    {
        proof {
            use_type_invariant(&*self);
        }
        self.scalar.bytes
    }

    /// The verifying key, in its 32-byte form.
    pub fn verifying_key(&self) -> (key: [u8; 32])
        ensures
            key@ == frost_public_key(self@),
    {
        proof {
            use_type_invariant(&*self);
        }
        frost_verifying_key(&self.scalar.bytes)
    }
}

/// A participant's key package. Its view is its encoded form. What is secret in
/// it is overwritten when it is dropped.
pub struct KeyPackage {
    identifier: [u8; 32],
    signing_share: Secret<32>,
    verifying_share: [u8; 32],
    verifying_key: [u8; 32],
    min_signers: u16,
    encoded: SecretVec,
}

impl View for KeyPackage {
    type V = Seq<u8>;

    closed spec fn view(&self) -> Seq<u8> {
        self.encoded@
    }
}

/// The identifier in an encoded key package.
pub open spec fn key_identifier(key_package: Seq<u8>) -> Seq<u8> {
    key_package_parts(key_package)->Ok_0.identifier
}

/// The group verifying key in an encoded key package.
pub open spec fn key_verifying_key(key_package: Seq<u8>) -> Seq<u8> {
    key_package_parts(key_package)->Ok_0.verifying_key
}

/// The signing share in an encoded key package.
pub open spec fn key_signing_share(key_package: Seq<u8>) -> Seq<u8> {
    key_package_parts(key_package)->Ok_0.signing_share
}

/// The verifying share in an encoded key package.
pub open spec fn key_verifying_share(key_package: Seq<u8>) -> Seq<u8> {
    key_package_parts(key_package)->Ok_0.verifying_share
}

/// The threshold in an encoded key package.
pub open spec fn key_min_signers(key_package: Seq<u8>) -> u16 {
    key_package_parts(key_package)->Ok_0.min_signers
}

/// The outcome of decoding a key package.
pub open spec fn key_package_outcome(bytes: Seq<u8>) -> Result<Seq<u8>, Seq<char>> {
    match key_package_parts(bytes) {
        Ok(_) => Ok(bytes),
        Err(text) => Err(text),
    }
}

impl KeyPackage {
    #[verifier::type_invariant]
    spec fn inv(self) -> bool {
        &&& key_package_parts(self.encoded@) == Ok::<KeyParts, Seq<char>>(
            KeyParts {
                identifier: self.identifier@,
                signing_share: self.signing_share@,
                verifying_share: self.verifying_share@,
                verifying_key: self.verifying_key@,
                min_signers: self.min_signers,
            },
        )
        &&& canonical_scalar(self.signing_share@)
    }

    /// Decodes a key package.
    pub fn deserialize(bytes: &[u8]) -> (key_package: Result<KeyPackage, String>)
        ensures
            crate::error::text_outcome(key_package) == key_package_outcome(bytes@),
            match key_package_parts(bytes@) {
                Ok(_) => key_package is Ok && key_package->Ok_0@ == bytes@,
                Err(text) => key_package is Err && key_package->Err_0@ == text,
            },
    {
        match frost_key_package(bytes) {
            Ok((identifier, signing_share, verifying_share, verifying_key, min_signers)) => Ok(
                KeyPackage {
                    identifier,
                    signing_share: Secret { bytes: signing_share },
                    verifying_share,
                    verifying_key,
                    min_signers,
                    encoded: SecretVec { bytes: vstd::slice::slice_to_vec(bytes) },
                },
            ),
            Err(e) => Err(e),
        }
    }

    /// The participant's identifier.
    pub fn identifier(&self) -> (identifier: [u8; 32])
        ensures
            identifier@ == key_identifier(self@),
            identifier@ == key_package_parts(self@)->Ok_0.identifier,
            key_package_parts(self@) is Ok,
    {
        proof {
            use_type_invariant(&*self);
        }
        self.identifier
    }

    /// The group's verifying key.
    pub fn verifying_key(&self) -> (verifying_key: [u8; 32])
        ensures
            verifying_key@ == key_verifying_key(self@),
            verifying_key@ == key_package_parts(self@)->Ok_0.verifying_key,
            key_package_parts(self@) is Ok,
    {
        proof {
            use_type_invariant(&*self);
        }
        self.verifying_key
    }

    /// The participant's verifying share.
    pub fn verifying_share(&self) -> (verifying_share: [u8; 32])
        ensures
            verifying_share@ == key_verifying_share(self@),
            verifying_share@ == key_package_parts(self@)->Ok_0.verifying_share,
    {
        proof {
            use_type_invariant(&*self);
        }
        self.verifying_share
    }

    /// How many participants must sign.
    pub fn min_signers(&self) -> (min: u16)
        ensures
            min == key_min_signers(self@),
            min == key_package_parts(self@)->Ok_0.min_signers,
    {
        proof {
            use_type_invariant(&*self);
        }
        self.min_signers
    }
}

/// The public key package of a group. Its view is its encoded form.
pub struct PublicKeyPackage {
    members: Vec<[u8; 32]>,
    verifying_shares: Vec<[u8; 32]>,
    verifying_key: [u8; 32],
    min_signers: Option<u16>,
    encoded: Vec<u8>,
}

impl View for PublicKeyPackage {
    type V = Seq<u8>;

    closed spec fn view(&self) -> Seq<u8> {
        self.encoded@
    }
}

/// The members' identifiers in an encoded public key package.
pub open spec fn group_members(group: Seq<u8>) -> Seq<Seq<u8>> {
    public_key_package_parts(group)->Ok_0.0
}

/// The verifying key in an encoded public key package.
pub open spec fn group_key(group: Seq<u8>) -> Seq<u8> {
    public_key_package_parts(group)->Ok_0.2
}

/// The members' verifying shares in an encoded public key package.
pub open spec fn group_verifying_shares(group: Seq<u8>) -> Seq<Seq<u8>> {
    public_key_package_parts(group)->Ok_0.1
}

/// The threshold in an encoded public key package, 0 if it names none.
pub open spec fn group_threshold(group: Seq<u8>) -> nat {
    match public_key_package_parts(group)->Ok_0.3 {
        Some(min) => min as nat,
        None => 0,
    }
}

impl PublicKeyPackage {
    #[verifier::type_invariant]
    spec fn inv(self) -> bool {
        public_key_package_parts(self.encoded@) == Ok::<
            (Seq<Seq<u8>>, Seq<Seq<u8>>, Seq<u8>, Option<u16>),
            Seq<char>,
        >(
            (
                identifiers(self.members@),
                identifiers(self.verifying_shares@),
                self.verifying_key@,
                self.min_signers,
            ),
        )
    }

    /// Decodes a public key package.
    pub fn deserialize(bytes: &[u8]) -> (group: Result<PublicKeyPackage, String>)
        ensures
            match public_key_package_parts(bytes@) {
                Ok(_) => group is Ok && group->Ok_0@ == bytes@,
                Err(text) => group is Err && group->Err_0@ == text,
            },
    {
        match frost_public_key_package(bytes) {
            Ok((members, verifying_shares, verifying_key, min_signers)) => Ok(
                PublicKeyPackage {
                    members,
                    verifying_shares,
                    verifying_key,
                    min_signers,
                    encoded: vstd::slice::slice_to_vec(bytes),
                },
            ),
            Err(e) => Err(e),
        }
    }

    /// The members' identifiers.
    pub fn members(&self) -> (members: &Vec<[u8; 32]>)
        ensures
            identifiers(members@) == group_members(self@),
            members@.len() == public_key_package_parts(self@)->Ok_0.0.len(),
            forall|i: int|
                0 <= i < members@.len() ==> (#[trigger] members@[i])@ == public_key_package_parts(
                    self@,
                )->Ok_0.0[i],
    {
        proof {
            use_type_invariant(&*self);
            let ids = identifiers(self.members@);
            assert forall|i: int| 0 <= i < self.members@.len() implies (
            #[trigger] self.members@[i])@ == ids[i] by {}
        }
        &self.members
    }

    /// The members' verifying shares, in the order of the members.
    pub fn verifying_shares(&self) -> (verifying_shares: &Vec<[u8; 32]>)
        ensures
            identifiers(verifying_shares@) == group_verifying_shares(self@),
            verifying_shares@.len() == public_key_package_parts(self@)->Ok_0.1.len(),
            forall|i: int|
                0 <= i < verifying_shares@.len() ==> (#[trigger] verifying_shares@[i])@
                    == public_key_package_parts(self@)->Ok_0.1[i],
    {
        proof {
            use_type_invariant(&*self);
            let ids = identifiers(self.verifying_shares@);
            assert forall|i: int| 0 <= i < self.verifying_shares@.len() implies (
            #[trigger] self.verifying_shares@[i])@ == ids[i] by {}
        }
        &self.verifying_shares
    }

    /// The group's verifying key.
    pub fn verifying_key(&self) -> (verifying_key: [u8; 32])
        ensures
            verifying_key@ == group_key(self@),
            verifying_key@ == public_key_package_parts(self@)->Ok_0.2,
            public_key_package_parts(self@) is Ok,
    {
        proof {
            use_type_invariant(&*self);
        }
        self.verifying_key
    }

    /// How many participants must sign, 0 if the package does not say.
    pub fn min_signers(&self) -> (min: usize)
        ensures
            min == group_threshold(self@),
            match public_key_package_parts(self@)->Ok_0.3 {
                Some(signers) => min == signers,
                None => min == 0,
            },
    {
        proof {
            use_type_invariant(&*self);
        }
        match self.min_signers {
            Some(min) => min as usize,
            None => 0,
        }
    }
}

/// Round-1 nonces, to be used once. Their view is the hiding nonce, then the
/// binding nonce. They are overwritten when they are dropped.
pub struct SigningNonces {
    nonces: Secret<64>,
    commitments: Result<Vec<u8>, String>,
}

impl View for SigningNonces {
    type V = Seq<u8>;

    closed spec fn view(&self) -> Seq<u8> {
        self.nonces@
    }
}

impl SigningNonces {
    #[verifier::type_invariant]
    spec fn inv(self) -> bool {
        &&& crate::error::text_outcome(self.commitments) == nonce_commitments_outcome(self.nonces@)
        &&& are_nonzero(self.nonces@) ==> canonical_commitments(nonce_commitments(self.nonces@))
    }

    /// Fresh nonces for a participant, made of its signing share.
    pub fn generate(key_package: &KeyPackage) -> (nonces: SigningNonces)
        ensures
            are_nonces_of(nonces@, key_signing_share(key_package@)),
    {
        proof {
            use_type_invariant(key_package);
        }
        let nonces = Secret { bytes: frost_commit(&key_package.signing_share.bytes) };
        let commitments = frost_nonce_commitments(&nonces.bytes);
        SigningNonces { nonces, commitments }
    }

    /// The encoded commitments to the nonces, or the text of the error.
    pub fn commitments(&self) -> (commitments: &Result<Vec<u8>, String>)
        ensures
            self@.len() == 64,
            crate::error::text_outcome(*commitments) == nonce_commitments_outcome(self@),
            are_nonzero(self@) ==> canonical_commitments(nonce_commitments(self@)),
            match commitments {
                Ok(bytes) => are_nonzero(self@) && bytes@ == nonce_commitments(self@),
                Err(_) => !are_nonzero(self@),
            },
    {
        proof {
            use_type_invariant(&*self);
        }
        &self.commitments
    }
}

/// A signing package: what the participants sign, and the commitments of those
/// who do.
pub struct SigningPackage {
    /// The commitments, by identifier.
    pub commitments: IdMap,
    /// The message.
    pub message: Vec<u8>,
}

impl SigningPackage {
    /// Encodes the package.
    pub fn serialize(&self) -> (encoded: Result<Vec<u8>, String>)
        ensures
            crate::error::text_outcome(encoded) == signing_package_encoding(
                self.commitments@,
                self.message@,
            ),
            canonical(self.commitments@) ==> encoded is Ok && encodes_package(
                encoded->Ok_0@,
                self.commitments@,
                self.message@,
            ),
    {
        frost_encode_package(self.commitments.entries(), self.message.as_slice())
    }

    /// Decodes a package.
    pub fn deserialize(bytes: &[u8]) -> (package: Result<SigningPackage, String>)
        ensures
            match signing_package_parts(bytes@) {
                Ok((commitments, message)) => package is Ok && package->Ok_0.commitments@
                    == commitments && package->Ok_0.message@ == message && canonical(commitments),
                Err(text) => package is Err && package->Err_0@ == text,
            },
    {
        match frost_decode_package(bytes) {
            Ok((entries, message)) => Ok(
                SigningPackage { commitments: IdMap::from_entries(entries), message },
            ),
            Err(e) => Err(e),
        }
    }

    /// A participant's signature share.
    pub fn sign(&self, nonces: &SigningNonces, key_package: &KeyPackage) -> (share: Result<
        Vec<u8>,
        String,
    >)
        ensures
            crate::error::text_outcome(share) == frost_signature_share(
                self.commitments@,
                self.message@,
                nonces@,
                key_package@,
            ),
            share matches Ok(bytes) ==> canonical_scalar(bytes@) && holds_own_commitment(
                self.commitments@,
                nonces@,
                key_package@,
            ),
            canonical(self.commitments@) && holds_own_commitment(
                self.commitments@,
                nonces@,
                key_package@,
            ) ==> share is Ok || share->Err_0@ == "Error in elliptic curve Group."@,
    {
        frost_sign(
            self.commitments.entries(),
            self.message.as_slice(),
            &nonces.nonces.bytes,
            key_package.encoded.bytes.as_slice(),
        )
    }

    /// Aggregates signature shares, by identifier, into a signature.
    pub fn aggregate(&self, shares: &IdMap, group: &PublicKeyPackage) -> (signature: Result<
        Vec<u8>,
        String,
    >)
        ensures
            crate::error::text_outcome(signature) == frost_aggregated(
                self.commitments@,
                self.message@,
                shares@,
                group@,
            ),
            signature is Ok ==> is_signing_quorum(self.commitments@, shares@, group@),
            are_quorum_shares(self.commitments@, self.message@, shares@, group@) ==> signature is Ok
                && signature->Ok_0@.len() == 64 && frost_verifies(
                group_key(group@),
                self.message@,
                signature->Ok_0@,
            ),
    {
        frost_aggregate(
            self.commitments.entries(),
            self.message.as_slice(),
            shares.entries(),
            group.encoded.as_slice(),
        )
    }
}

/// A clamped number is never a multiple of the group order, so that every seed
/// has a signing scalar.
pub proof fn lemma_clamped_scalar_is_valid(scalar: Seq<u8>)
    requires
        reduced_from_clamped(scalar),
    ensures
        valid_scalar(scalar),
{
    let n = choose|n: int|
        clamped(n) && crate::bytes::le_value(scalar) == #[trigger] (n % group_order());
    let l = group_order();
    let q = n / l;
    vstd::arithmetic::div_mod::lemma_fundamental_div_mod(n, l);
    vstd::arithmetic::div_mod::lemma_mod_bound(n, l);
    if n % l == 0 {
        assert(n == l * q);
        assert(4 <= q <= 7) by (nonlinear_arith)
            requires
                n == l * q,
                clamped(n),
                l == group_order(),
        ;
        assert(n == 4 * l || n == 5 * l || n == 6 * l || n == 7 * l) by (nonlinear_arith)
            requires
                n == l * q,
                4 <= q <= 7,
        ;
    }
}

} // verus!
