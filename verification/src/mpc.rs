//! Mode B: FROST threshold signatures over Ed25519.
//!
//! The signing seed is dealer-split (RFC 9591) into t-of-n key shares. Each
//! participant only ever holds an encrypted key share; the full signing key is
//! never reconstructed on any machine. Signing runs the two-round FROST
//! protocol with one in-process participant per share file: each contributes a
//! nonce commitment (round 1) and a signature share (round 2), and the shares
//! aggregate into a single Ed25519 signature.
use vstd::prelude::*;
use vstd::string::*;

use crate::bytes::{array_at, push_le16, read_le16, same_bytes, vec_at};
use crate::error::{Error, ErrorView};
use crate::files::{StoredFile, StoredFileView};
use crate::frost::{Dealt, KeyPackage, PublicKeyPackage, Quorum, SigningNonces, SigningPackage};
use crate::idmap::IdMap;
use crate::key::SecretKey;
use crate::secret::{Secret, SecretVec};
use crate::steps::Step;
use crate::text::decimal;
use crate::{NONCE_LEN, SALT_LEN, TAG_LEN};

verus! {

/// File magic distinguishing FROST share files from SSS shard files, `HX2`.
pub const FROST_MAGIC: [u8; 3] = [0x48, 0x58, 0x32];

/// Share file format version.
pub const FROST_VERSION: u8 = 1;

/// File name of the (non-secret) group public key package made by
/// [`mpc_split`], required to verify and aggregate signatures.
pub const GROUP_PUB_FILENAME: &'static str = "group.pub";

/// Fixed header length of a FROST share file (excluding the sealed payload):
/// magic, version, min signers, max signers, participant id, salt, nonce and
/// the sealed payload's length.
pub const FROST_HEADER_LEN: usize = 3 + 1 + 1 + 1 + 1 + SALT_LEN + NONCE_LEN + 2;

/// An encrypted FROST key share on disk.
///
/// Layout: magic | version | min_signers | max_signers | id | salt | nonce |
/// sealed_len(u16 LE) | sealed (key package || AES-GCM tag).
#[derive(Debug, Clone, PartialEq, Eq)]
pub struct FrostShare {
    /// Shares required to sign (threshold).
    pub min_signers: u8,
    /// Total number of shares in the group.
    pub max_signers: u8,
    /// Participant identifier (1-based, matching the default FROST split).
    pub id: u8,
    /// Argon2id salt.
    pub salt: [u8; SALT_LEN],
    /// AES-256-GCM nonce.
    pub nonce: [u8; NONCE_LEN],
    /// Encrypted key package with appended authentication tag.
    pub sealed: Vec<u8>,
}

/// A [`FrostShare`] as a mathematical value.
#[verifier::ext_equal]
pub ghost struct FrostShareView {
    pub min_signers: u8,
    pub max_signers: u8,
    pub id: u8,
    pub salt: Seq<u8>,
    pub nonce: Seq<u8>,
    pub sealed: Seq<u8>,
}

impl View for FrostShare {
    type V = FrostShareView;

    open spec fn view(&self) -> FrostShareView {
        FrostShareView {
            min_signers: self.min_signers,
            max_signers: self.max_signers,
            id: self.id,
            salt: self.salt@,
            nonce: self.nonce@,
            sealed: self.sealed@,
        }
    }
}

impl FrostShareView {
    /// The salt and the nonce have their lengths.
    pub open spec fn wf(self) -> bool {
        self.salt.len() == SALT_LEN && self.nonce.len() == NONCE_LEN
    }

    /// The bytes of a share file.
    pub open spec fn encoding(self) -> Seq<u8> {
        FROST_MAGIC@ + seq![FROST_VERSION, self.min_signers, self.max_signers, self.id] + self.salt
            + self.nonce + crate::bytes::le16(self.sealed.len()) + self.sealed
    }

    /// The outcome of decrypting the share under a password: the encoded key
    /// package, or the error.
    pub open spec fn decrypt_outcome(self, password: Seq<char>) -> Result<Seq<u8>, ErrorView> {
        match crate::crypto::open_outcome(
            self.sealed,
            password,
            self.salt,
            self.nonce,
            seq![self.min_signers, self.max_signers, self.id],
        ) {
            Err(error) => Err(ErrorView::Decrypt { id: self.id, reason: error.message() }),
            Ok(payload) => match crate::frost::key_package_outcome(payload) {
                Err(text) => Err(ErrorView::Mpc("invalid share payload: "@ + text)),
                Ok(key_package) => Ok(key_package),
            },
        }
    }
}

/// The outcome of parsing bytes as a share: the parts of the layout, or what
/// is wrong with it.
pub open spec fn decode_outcome(bytes: Seq<u8>) -> Result<FrostShareView, ErrorView> {
    let sealed_len = crate::bytes::le_value(bytes.subrange(35, 37));
    if bytes.len() < FROST_HEADER_LEN {
        Err(
            ErrorView::InvalidShardFile(
                "expected at least "@ + crate::text::decimal_text(FROST_HEADER_LEN as nat)
                    + " bytes, got "@ + crate::text::decimal_text(bytes.len()),
            ),
        )
    } else if bytes.subrange(0, 3) != FROST_MAGIC@ {
        Err(ErrorView::InvalidShardFile("bad magic bytes; not a horcrux FROST share"@))
    } else if bytes[3] != FROST_VERSION {
        Err(
            ErrorView::InvalidShardFile(
                "unsupported version "@ + crate::text::decimal_text(bytes[3] as nat),
            ),
        )
    } else if sealed_len < TAG_LEN || bytes.len() != FROST_HEADER_LEN + sealed_len {
        Err(
            ErrorView::InvalidShardFile(
                "sealed payload is "@ + crate::text::decimal_text(sealed_len)
                    + " bytes but file is "@ + crate::text::decimal_text(bytes.len()) + " bytes"@,
            ),
        )
    } else {
        Ok(
            FrostShareView {
                min_signers: bytes[4],
                max_signers: bytes[5],
                id: bytes[6],
                salt: bytes.subrange(7, 23),
                nonce: bytes.subrange(23, 35),
                sealed: bytes.subrange(37, bytes.len() as int),
            },
        )
    }
}

/// The outcome of parsing what reading a file gave.
pub open spec fn read_outcome(content: Result<Seq<u8>, ErrorView>) -> Result<
    FrostShareView,
    ErrorView,
> {
    match content {
        Ok(bytes) => decode_outcome(bytes),
        Err(error) => Err(error),
    }
}

impl FrostShare {
    /// Parse a share from a file that was read.
    pub fn read(content: &Result<Vec<u8>, String>) -> (share: Result<FrostShare, Error>)
        ensures
            crate::error::outcome(share) == read_outcome(crate::files::content_outcome(*content)),
            match content {
                Ok(bytes) => crate::error::outcome(share) == decode_outcome(bytes@),
                Err(text) => share is Err && share->Err_0@ == ErrorView::Io(text@),
            },
            share matches Ok(s) ==> s.sealed@.len() < 65536,
    {
        match crate::files::contents(content) {
            Ok(bytes) => FrostShare::from_bytes(bytes.as_slice()),
            Err(e) => Err(e),
        }
    }

    /// Serialize to the binary layout.
    pub fn to_bytes(&self) -> (bytes: Vec<u8>)
        ensures
            bytes@ == self@.encoding(),
            bytes@ == seq![
                0x48u8,
                0x58u8,
                0x32u8,
                1u8,
                self.min_signers,
                self.max_signers,
                self.id,
            ] + self.salt@ + self.nonce@ + seq![
                (self.sealed@.len() % 256) as u8,
                (self.sealed@.len() / 256 % 256) as u8,
            ] + self.sealed@,
    {
        proof {
            frost_share_layout(self@);
        }
        let mut out: Vec<u8> = Vec::new();
        out.extend_from_slice(&FROST_MAGIC);
        out.push(FROST_VERSION);
        out.push(self.min_signers);
        out.push(self.max_signers);
        out.push(self.id);
        out.extend_from_slice(&self.salt);
        out.extend_from_slice(&self.nonce);
        push_le16(&mut out, self.sealed.len());
        out.extend_from_slice(self.sealed.as_slice());
        assert(out@ =~= self@.encoding());
        out
    }

    /// Deserialize from the binary layout, validating magic/version/length.
    pub fn from_bytes(bytes: &[u8]) -> (share: Result<FrostShare, Error>)
        ensures
            crate::error::outcome(share) == decode_outcome(bytes@),
            share matches Ok(s) ==> s.sealed@.len() < 65536,
            share is Ok <==> bytes@.len() >= 37 && bytes@[0] == 0x48 && bytes@[1] == 0x58
                && bytes@[2] == 0x32 && bytes@[3] == 1 && bytes@[35] + 256 * bytes@[36] >= 16
                && bytes@.len() == 37 + bytes@[35] + 256 * bytes@[36],
            share matches Ok(s) ==> s.min_signers == bytes@[4] && s.max_signers == bytes@[5]
                && s.id == bytes@[6] && s.salt@ == bytes@.subrange(7, 23) && s.nonce@
                == bytes@.subrange(23, 35) && s.sealed@ == bytes@.subrange(
                37,
                bytes@.len() as int,
            ),
    {
        proof {
            frost_share_parses_iff_well_formed(bytes@);
        }
        if bytes.len() < FROST_HEADER_LEN {
            return Err(
                Error::InvalidShardFile(
                    "expected at least ".to_owned().concat(
                        decimal(FROST_HEADER_LEN).as_str(),
                    ).concat(" bytes, got ").concat(decimal(bytes.len()).as_str()),
                ),
            );
        }
        if !same_bytes(vstd::slice::slice_subrange(bytes, 0, 3), &FROST_MAGIC) {
            return Err(
                Error::InvalidShardFile("bad magic bytes; not a horcrux FROST share".to_owned()),
            );
        }
        if bytes[3] != FROST_VERSION {
            return Err(
                Error::InvalidShardFile(
                    "unsupported version ".to_owned().concat(decimal(bytes[3] as usize).as_str()),
                ),
            );
        }
        let sealed_len: usize = read_le16(bytes, FROST_HEADER_LEN - 2);
        if sealed_len < TAG_LEN || bytes.len() != FROST_HEADER_LEN + sealed_len {
            return Err(
                Error::InvalidShardFile(
                    "sealed payload is ".to_owned().concat(decimal(sealed_len).as_str()).concat(
                        " bytes but file is ",
                    ).concat(decimal(bytes.len()).as_str()).concat(" bytes"),
                ),
            );
        }
        Ok(
            FrostShare {
                min_signers: bytes[4],
                max_signers: bytes[5],
                id: bytes[6],
                salt: array_at(bytes, 7),
                nonce: array_at(bytes, 7 + SALT_LEN),
                sealed: vec_at(bytes, FROST_HEADER_LEN, bytes.len()),
            },
        )
    }

    /// Decrypt and deserialize the participant's key package.
    ///
    /// A wrong password (or tampered file) is rejected by the AES-GCM tag
    /// check, which is bound to this share's (min, max, id) via the associated
    /// data.
    pub fn decrypt(&self, password: &str) -> (key_package: Result<KeyPackage, Error>)
        ensures
            crate::error::outcome(key_package) == self@.decrypt_outcome(password@),
            key_package matches Ok(opened) ==> crate::crypto::aes256gcm_open(
                crate::crypto::argon2id(password@, self.salt@, 19456, 2, 1),
                self.nonce@,
                seq![self.min_signers, self.max_signers, self.id],
                self.sealed@,
            ) == Some(opened@) && crate::frost::key_package_parts(opened@) is Ok,
    {
        let aad = [self.min_signers, self.max_signers, self.id];
        assert(aad@ =~= seq![self.min_signers, self.max_signers, self.id]);
        match crate::crypto::open(
            self.sealed.as_slice(),
            password,
            &self.salt,
            &self.nonce,
            &aad,
        ) {
            Ok(bytes) => {
                let payload = SecretVec { bytes };
                match KeyPackage::deserialize(payload.bytes.as_slice()) {
                    Ok(key_package) => Ok(key_package),
                    Err(e) => Err(
                        Error::Mpc("invalid share payload: ".to_owned().concat(e.as_str())),
                    ),
                }
            },
            Err(e) => Err(Error::Decrypt { id: self.id, reason: e.message() }),
        }
    }
}

/// The bytes of a share parse as that share. (A payload that is too short for
/// its tag, or too long for its length field, is not one that a share has.)
pub proof fn frost_share_round_trip(share: FrostShareView)
    requires
        share.wf(),
        TAG_LEN <= share.sealed.len() < 65536,
    ensures
        decode_outcome(share.encoding()) == Ok::<FrostShareView, ErrorView>(share),
{
    let bytes = share.encoding();
    assert(bytes.subrange(0, 3) =~= FROST_MAGIC@);
    assert(bytes.subrange(35, 37) =~= crate::bytes::le16(share.sealed.len()));
    crate::bytes::lemma_le16_value(share.sealed.len());
    assert(bytes.subrange(7, 23) =~= share.salt);
    assert(bytes.subrange(23, 35) =~= share.nonce);
    assert(bytes.subrange(37, bytes.len() as int) =~= share.sealed);
}

/// A share is opened by AES-256-GCM under the Argon2id hash of the whole
/// password and the share's salt, with the share's nonce, and with its minimum,
/// its maximum and its id as the associated data; what comes out must be a key
/// package. What is not opened so is a decryption failure that names the
/// share's id.
pub proof fn share_opens_under_its_password_alone(share: FrostShareView, password: Seq<char>)
    requires
        vstd::utf8::encode_utf8(password).len() <= 0xFFFF_FFFF,
    ensures
        match crate::crypto::aes256gcm_open(
            crate::crypto::argon2id(password, share.salt, 19456, 2, 1),
            share.nonce,
            seq![share.min_signers, share.max_signers, share.id],
            share.sealed,
        ) {
            Some(payload) => match crate::frost::key_package_parts(payload) {
                Ok(_) => share.decrypt_outcome(password) == Ok::<Seq<u8>, ErrorView>(payload),
                Err(text) => share.decrypt_outcome(password) == Err::<Seq<u8>, ErrorView>(
                    ErrorView::Mpc("invalid share payload: "@ + text),
                ),
            },
            None => share.decrypt_outcome(password) == Err::<Seq<u8>, ErrorView>(
                ErrorView::Decrypt {
                    id: share.id,
                    reason: ErrorView::Aead("aead::Error"@).message(),
                },
            ),
        },
{
}

/// A password that Argon2 does not take, for its length, opens no share.
pub proof fn overlong_password_opens_no_share(share: FrostShareView, password: Seq<char>)
    requires
        vstd::utf8::encode_utf8(password).len() > 0xFFFF_FFFF,
    ensures
        share.decrypt_outcome(password) == Err::<Seq<u8>, ErrorView>(
            ErrorView::Decrypt {
                id: share.id,
                reason: ErrorView::Kdf("password is too long"@).message(),
            },
        ),
{
}

/// A share file is `HX2`, version 1, the minimum, the maximum, the id, 16 bytes
/// of salt, 12 of nonce, the length of the sealed payload as two little-endian
/// bytes, and the payload.
pub proof fn frost_share_layout(share: FrostShareView)
    requires
        share.wf(),
    ensures
        share.encoding() == seq![
            0x48u8,
            0x58u8,
            0x32u8,
            1u8,
            share.min_signers,
            share.max_signers,
            share.id,
        ] + share.salt + share.nonce + seq![
            (share.sealed.len() % 256) as u8,
            (share.sealed.len() / 256 % 256) as u8,
        ] + share.sealed,
        share.encoding().len() == 37 + share.sealed.len(),
{
    assert(share.encoding() =~= seq![
        0x48u8,
        0x58u8,
        0x32u8,
        1u8,
        share.min_signers,
        share.max_signers,
        share.id,
    ] + share.salt + share.nonce + seq![
        (share.sealed.len() % 256) as u8,
        (share.sealed.len() / 256 % 256) as u8,
    ] + share.sealed);
}

/// Bytes parse as a share if and only if they begin with `HX2` and version 1,
/// and are as long as their length field says, with no less than 16 bytes of
/// payload; the share then has these bytes. Whatever does not parse is no share
/// file.
pub proof fn frost_share_parses_iff_well_formed(bytes: Seq<u8>)
    ensures
        decode_outcome(bytes) is Ok <==> bytes.len() >= 37 && bytes[0] == 0x48 && bytes[1] == 0x58
            && bytes[2] == 0x32 && bytes[3] == 1 && bytes[35] + 256 * bytes[36] >= 16
            && bytes.len() == 37 + bytes[35] + 256 * bytes[36],
        decode_outcome(bytes) matches Ok(share) ==> {
            &&& share.min_signers == bytes[4]
            &&& share.max_signers == bytes[5]
            &&& share.id == bytes[6]
            &&& share.salt == bytes.subrange(7, 23)
            &&& share.nonce == bytes.subrange(23, 35)
            &&& share.sealed == bytes.subrange(37, bytes.len() as int)
        },
        bytes.len() < 37 ==> decode_outcome(bytes) == Err::<FrostShareView, ErrorView>(
            ErrorView::InvalidShardFile(
                "expected at least "@ + crate::text::decimal_text(37) + " bytes, got "@
                    + crate::text::decimal_text(bytes.len()),
            ),
        ),
        bytes.len() >= 37 && !(bytes[0] == 0x48 && bytes[1] == 0x58 && bytes[2] == 0x32)
            ==> decode_outcome(bytes) == Err::<FrostShareView, ErrorView>(
            ErrorView::InvalidShardFile("bad magic bytes; not a horcrux FROST share"@),
        ),
        bytes.len() >= 37 && bytes[0] == 0x48 && bytes[1] == 0x58 && bytes[2] == 0x32 && bytes[3]
            != 1 ==> decode_outcome(bytes) == Err::<FrostShareView, ErrorView>(
            ErrorView::InvalidShardFile(
                "unsupported version "@ + crate::text::decimal_text(bytes[3] as nat),
            ),
        ),
        bytes.len() >= 37 && bytes[0] == 0x48 && bytes[1] == 0x58 && bytes[2] == 0x32 && bytes[3]
            == 1 && (bytes[35] + 256 * bytes[36] < 16 || bytes.len() != 37 + bytes[35] + 256
            * bytes[36]) ==> decode_outcome(bytes) == Err::<FrostShareView, ErrorView>(
            ErrorView::InvalidShardFile(
                "sealed payload is "@ + crate::text::decimal_text(
                    (bytes[35] + 256 * bytes[36]) as nat,
                ) + " bytes but file is "@ + crate::text::decimal_text(bytes.len()) + " bytes"@,
            ),
        ),
        decode_outcome(bytes) matches Err(error) ==> error is InvalidShardFile,
{
    if bytes.len() >= 37 {
        let magic = bytes.subrange(0, 3);
        assert(magic[0] == bytes[0] && magic[1] == bytes[1] && magic[2] == bytes[2]);
        if magic[0] == 0x48 && magic[1] == 0x58 && magic[2] == 0x32 {
            assert(magic =~= FROST_MAGIC@);
        }
        let field = bytes.subrange(35, 37);
        assert(field[0] == bytes[35] && field[1] == bytes[36]);
        crate::bytes::lemma_le16_of_value(field);
    }
}

/// A share that parses has the bytes it was parsed from.
pub proof fn frost_share_parse_is_exact(bytes: Seq<u8>)
    ensures
        decode_outcome(bytes) matches Ok(share) ==> share.wf() && share.encoding() == bytes,
{
    if let Ok(share) = decode_outcome(bytes) {
        crate::bytes::lemma_le16_of_value(bytes.subrange(35, 37));
        assert(crate::bytes::le16(share.sealed.len()) == bytes.subrange(35, 37));
        assert(bytes =~= bytes.subrange(0, 3) + bytes.subrange(3, 7) + bytes.subrange(7, 23)
            + bytes.subrange(23, 35) + bytes.subrange(35, 37) + bytes.subrange(
            37,
            bytes.len() as int,
        ));
        assert(bytes.subrange(3, 7) =~= seq![
            FROST_VERSION,
            share.min_signers,
            share.max_signers,
            share.id,
        ]);
    }
}

/// A shard file of Mode A is no FROST share.
pub proof fn shard_is_not_a_frost_share(shard: crate::shard::Shard)
    ensures
        decode_outcome(shard.encoding()) == Err::<FrostShareView, ErrorView>(
            ErrorView::InvalidShardFile("bad magic bytes; not a horcrux FROST share"@),
        ),
{
    let bytes = shard.encoding();
    assert(bytes.len() == crate::shard::SHARD_LEN);
    assert(bytes[2] == crate::SHARD_MAGIC@[2]);
    assert(bytes.subrange(0, 3)[2] == bytes[2]);
}

/// A FROST share file is no shard of Mode A.
pub proof fn frost_share_is_not_a_shard(share: FrostShareView)
    requires
        share.wf(),
    ensures
        crate::shard::decode_outcome(share.encoding()) matches Err(
            ErrorView::InvalidShardFile(_),
        ),
{
    let bytes = share.encoding();
    assert(bytes[2] == FROST_MAGIC@[2]);
    assert(bytes.subrange(0, 3)[2] == bytes[2]);
}

/// A Schnorr signature produced by aggregating FROST signature shares, plus
/// the group verifying key that validates it.
#[derive(Debug, Clone, Copy, PartialEq, Eq)]
pub struct MpcSignature {
    /// The 64-byte Ed25519 signature (R || S).
    pub signature: [u8; 64],
    /// The 32-byte group verifying key (the Mode A address bytes).
    pub verifying_key: [u8; 32],
}

/// An [`MpcSignature`] as a mathematical value.
#[verifier::ext_equal]
pub ghost struct MpcSignatureView {
    pub signature: Seq<u8>,
    pub verifying_key: Seq<u8>,
}

impl View for MpcSignature {
    type V = MpcSignatureView;

    open spec fn view(&self) -> MpcSignatureView {
        MpcSignatureView { signature: self.signature@, verifying_key: self.verifying_key@ }
    }
}

impl MpcSignature {
    /// Whether a plain Ed25519 verifier accepts the signature over the message
    /// under the verifying key that it carries.
    pub fn verifies(&self, message: &[u8]) -> (ok: bool)
        ensures
            ok == crate::frost::ed25519_verifies(self.verifying_key@, message@, self.signature@),
    {
        crate::frost::dalek_verify(&self.verifying_key, message, &self.signature)
    }
}

/// Derive the FROST signing key for a Mode A Ed25519 seed. The FROST group
/// public key equals the Mode A address, so signatures produced by any
/// threshold subset are indistinguishable from ones made by the original key.
/// Every seed has a signing key.
pub fn frost_signing_key(seed: &[u8; 32]) -> (key: Result<crate::frost::SigningKey, Error>)
    ensures
        key is Ok,
        key->Ok_0@ == crate::frost::ed25519_scalar(seed@),
{
    let scalar = Secret { bytes: crate::frost::dalek_scalar(seed) };
    proof {
        crate::frost::lemma_clamped_scalar_is_valid(scalar@);
    }
    match crate::frost::SigningKey::from_scalar(&scalar.bytes) {
        Ok(key) => Ok(key),
        Err(e) => Err(Error::Mpc("invalid signing scalar: ".to_owned().concat(e.as_str()))),
    }
}

/// The participant id as a `u8`. The default FROST split assigns the nonzero
/// identifiers `1..=n`; their little-endian scalar serialization starts with
/// the id byte.
pub(crate) fn share_id(identifier: &[u8; 32]) -> (id: u8)
    ensures
        id == identifier@[0],
{
    identifier[0]
}

/// A share and the name of its file.
pub struct NamedShare {
    /// File name, `mpc-{id}.hx`.
    pub file_name: String,
    /// The share.
    pub share: FrostShare,
}

/// What a dealer hands out: the encrypted shares and the encoded, non-secret
/// group public key package, which belongs in [`GROUP_PUB_FILENAME`].
pub struct MpcSplit {
    /// The shares, in the order of their ids.
    pub shares: Vec<NamedShare>,
    /// The encoded group public key package.
    pub group_pub: Vec<u8>,
}

/// The group public key package belongs in `group.pub`.
pub proof fn group_package_has_its_file_name()
    ensures
        GROUP_PUB_FILENAME@ == "group.pub"@,
{
}

/// Why the parameters of a split are refused, if they are.
pub open spec fn split_error(threshold: u8, share_count: u8, passwords: nat) -> Option<ErrorView> {
    if threshold < 2 {
        Some(ErrorView::InvalidParams("FROST requires a threshold of at least 2"@))
    } else if threshold > share_count {
        Some(
            ErrorView::InvalidParams(
                "threshold ("@ + crate::text::decimal_text(threshold as nat)
                    + ") must be at most share count ("@ + crate::text::decimal_text(
                    share_count as nat,
                ) + ")"@,
            ),
        )
    } else if passwords != share_count {
        Some(
            ErrorView::InvalidParams(
                "expected "@ + crate::text::decimal_text(share_count as nat) + " passwords, got "@
                    + crate::text::decimal_text(passwords),
            ),
        )
    } else {
        None
    }
}

/// A split is refused for its parameters if and only if the threshold is below
/// 2 or above the share count, or there is not one password for each share.
pub proof fn split_is_refused_for_its_parameters(threshold: u8, share_count: u8, passwords: nat)
    ensures
        split_error(threshold, share_count, passwords) is None <==> 2 <= threshold <= share_count
            && passwords == share_count,
        threshold < 2 ==> split_error(threshold, share_count, passwords) == Some(
            ErrorView::InvalidParams("FROST requires a threshold of at least 2"@),
        ),
        2 <= threshold && share_count < threshold ==> split_error(
            threshold,
            share_count,
            passwords,
        ) == Some(
            ErrorView::InvalidParams(
                "threshold ("@ + crate::text::decimal_text(threshold as nat)
                    + ") must be at most share count ("@ + crate::text::decimal_text(
                    share_count as nat,
                ) + ")"@,
            ),
        ),
        2 <= threshold <= share_count && passwords != share_count ==> split_error(
            threshold,
            share_count,
            passwords,
        ) == Some(
            ErrorView::InvalidParams(
                "expected "@ + crate::text::decimal_text(share_count as nat) + " passwords, got "@
                    + crate::text::decimal_text(passwords),
            ),
        ),
{
}

/// The verifying key of the group into which a seed is split.
pub open spec fn seed_verifying_key(seed: Seq<u8>) -> Seq<u8> {
    crate::frost::frost_public_key(crate::frost::ed25519_scalar(seed))
}

/// An encoded key package belongs to participant `id` of the group of a seed:
/// it holds the share on the sharing polynomial `coeffs`, and asks for
/// `threshold` signers.
pub open spec fn is_participant(
    key_package: Seq<u8>,
    id: int,
    seed: Seq<u8>,
    threshold: u8,
    coeffs: Seq<int>,
) -> bool {
    crate::frost::is_key_share(
        key_package,
        id,
        crate::frost::ed25519_scalar(seed),
        threshold as u16,
        coeffs,
    )
}

/// Share number `i + 1` of a split: it is named after its number, carries the
/// split's parameters, and its password opens the participant's key package.
pub open spec fn holds_key_share(
    named: NamedShare,
    i: int,
    seed: Seq<u8>,
    threshold: u8,
    share_count: u8,
    password: Seq<char>,
    coeffs: Seq<int>,
) -> bool {
    &&& named.file_name@ == "mpc-"@ + crate::text::decimal_text((i + 1) as nat) + ".hx"@
    &&& named.share.min_signers == threshold
    &&& named.share.max_signers == share_count
    &&& named.share.id == i + 1
    &&& crate::crypto::is_random(named.share.salt)
    &&& crate::crypto::is_random_nonce(named.share.nonce)
    &&& TAG_LEN <= named.share.sealed@.len() < 65536
    &&& named.share@.decrypt_outcome(password) matches Ok(key_package) && is_participant(
        key_package,
        i + 1,
        seed,
        threshold,
        coeffs,
    )
}

/// The encoded public key package of the group into which a seed is split: its
/// members hold the shares on the sharing polynomial `coeffs`.
pub open spec fn is_group_of(
    group: Seq<u8>,
    seed: Seq<u8>,
    threshold: u8,
    share_count: u8,
    coeffs: Seq<int>,
) -> bool {
    crate::frost::is_share_group(
        group,
        crate::frost::ed25519_scalar(seed),
        share_count as u16,
        threshold as u16,
        coeffs,
    )
}

/// The shares and the public key package of a split of a seed, on the sharing
/// polynomial `coeffs`: as many coefficients as the threshold, of which the
/// lowest is the seed's signing scalar.
pub open spec fn mpc_split_on(
    coeffs: Seq<int>,
    shares: Seq<NamedShare>,
    group: Seq<u8>,
    seed: Seq<u8>,
    threshold: u8,
    share_count: u8,
    passwords: Seq<Seq<char>>,
) -> bool {
    &&& crate::frost::shares_scalar(
        coeffs,
        crate::frost::ed25519_scalar(seed),
        threshold as u16,
    )
    &&& 2 <= threshold <= share_count
    &&& shares.len() == share_count
    &&& is_group_of(group, seed, threshold, share_count, coeffs)
    &&& forall|i: int|
        0 <= i < shares.len() ==> holds_key_share(
            #[trigger] shares[i],
            i,
            seed,
            threshold,
            share_count,
            passwords[i],
            coeffs,
        )
}

/// The shares and the public key package of a split of a seed: all the shares
/// lie on one polynomial.
pub open spec fn is_mpc_split(
    shares: Seq<NamedShare>,
    group: Seq<u8>,
    seed: Seq<u8>,
    threshold: u8,
    share_count: u8,
    passwords: Seq<Seq<char>>,
) -> bool {
    exists|coeffs: Seq<int>|
        mpc_split_on(coeffs, shares, group, seed, threshold, share_count, passwords)
}

/// The share of a participant: it is named after and carries the id, with the
/// split's parameters, and its password opens the payload.
pub open spec fn seals_payload(
    named: NamedShare,
    dealt: Dealt,
    threshold: u8,
    share_count: u8,
    password: Seq<char>,
) -> bool {
    &&& named.file_name@ == "mpc-"@ + crate::text::decimal_text(dealt.0@[0] as nat) + ".hx"@
    &&& named.share.min_signers == threshold
    &&& named.share.max_signers == share_count
    &&& named.share.id == dealt.0@[0]
    &&& crate::crypto::is_random(named.share.salt)
    &&& crate::crypto::is_random_nonce(named.share.nonce)
    &&& dealt.1 matches Ok(payload) && named.share.sealed@.len() == payload@.len() + TAG_LEN
        && crate::crypto::open_outcome(
        named.share.sealed@,
        password,
        named.share.salt@,
        named.share.nonce@,
        seq![threshold, share_count, dealt.0@[0]],
    ) == Ok::<Seq<u8>, ErrorView>(payload@)
}

/// Why a dealt key package cannot be sealed, if it cannot: it could not be
/// encoded, or the password is too long.
pub open spec fn seal_error(dealt: Dealt, password: Seq<char>) -> Option<ErrorView> {
    match dealt.1 {
        Err(text) => Some(ErrorView::Mpc(text@)),
        Ok(_) => if crate::crypto::password_fits(password) {
            None
        } else {
            Some(ErrorView::Kdf("password is too long"@))
        },
    }
}

/// The first error among dealt key packages, each with the password at its
/// position.
pub open spec fn first_seal_error(dealt: Seq<Dealt>, passwords: Seq<Seq<char>>) -> Option<ErrorView>
    decreases dealt.len(),
{
    if dealt.len() == 0 {
        None
    } else {
        match first_seal_error(dealt.drop_last(), passwords) {
            Some(error) => Some(error),
            None => seal_error(dealt.last(), passwords[dealt.len() - 1]),
        }
    }
}

proof fn lemma_first_seal_error(dealt: Seq<Dealt>, passwords: Seq<Seq<char>>, i: int)
    requires
        0 <= i <= dealt.len(),
        first_seal_error(dealt.take(i), passwords) is Some,
    ensures
        first_seal_error(dealt, passwords) == first_seal_error(dealt.take(i), passwords),
    decreases dealt.len(),
{
    if i == dealt.len() {
        assert(dealt.take(i) =~= dealt);
    } else {
        assert(dealt.drop_last().take(i) =~= dealt.take(i));
        lemma_first_seal_error(dealt.drop_last(), passwords, i);
    }
}

/// Where nothing stands against sealing, every package was encoded and every
/// password can be hashed.
proof fn lemma_no_seal_error(dealt: Seq<Dealt>, passwords: Seq<Seq<char>>)
    requires
        first_seal_error(dealt, passwords) is None,
    ensures
        forall|i: int|
            0 <= i < dealt.len() ==> seal_error(#[trigger] dealt[i], passwords[i]) is None,
    decreases dealt.len(),
{
    if dealt.len() > 0 {
        let fewer = dealt.drop_last();
        lemma_no_seal_error(fewer, passwords);
        assert forall|i: int| 0 <= i < dealt.len() implies seal_error(
            #[trigger] dealt[i],
            passwords[i],
        ) is None by {
            if i < dealt.len() - 1 {
                assert(fewer[i] == dealt[i]);
            }
        }
    }
}

/// A first error is the error of some package.
proof fn lemma_some_seal_error(dealt: Seq<Dealt>, passwords: Seq<Seq<char>>)
    requires
        first_seal_error(dealt, passwords) is Some,
    ensures
        exists|i: int|
            0 <= i < dealt.len() && seal_error(#[trigger] dealt[i], passwords[i])
                == first_seal_error(dealt, passwords),
    decreases dealt.len(),
{
    if dealt.len() > 0 {
        let fewer = dealt.drop_last();
        if first_seal_error(fewer, passwords) is Some {
            lemma_some_seal_error(fewer, passwords);
            let i = choose|i: int|
                0 <= i < fewer.len() && seal_error(#[trigger] fewer[i], passwords[i])
                    == first_seal_error(fewer, passwords);
            assert(dealt[i] == fewer[i]);
        } else {
            assert(dealt.last() == dealt[dealt.len() - 1]);
        }
    }
}

/// Encrypts dealt key packages, each given with its identifier, under the
/// password at its position, up to the first that fails.
pub fn seal_shares(
    dealt: &Vec<Dealt>,
    threshold: u8,
    share_count: u8,
    passwords: &[String],
) -> (shares: Result<Vec<NamedShare>, Error>)
    requires
        dealt@.len() == passwords@.len(),
        forall|i: int|
            0 <= i < dealt@.len() ==> ((#[trigger] dealt@[i]).1 matches Ok(payload)
                ==> payload@.len() <= crate::crypto::max_plaintext_len()),
    ensures
        match first_seal_error(dealt@, crate::files::texts_view(passwords@)) {
            Some(error) => shares is Err && shares->Err_0@ == error,
            None => shares is Ok && shares->Ok_0@.len() == dealt@.len() && forall|i: int|
                0 <= i < dealt@.len() ==> seals_payload(
                    #[trigger] shares->Ok_0@[i],
                    dealt@[i],
                    threshold,
                    share_count,
                    passwords@[i]@,
                ),
        },
        shares is Ok <==> forall|i: int|
            0 <= i < dealt@.len() ==> (#[trigger] dealt@[i]).1 is Ok && vstd::utf8::encode_utf8(
                passwords@[i]@,
            ).len() <= 0xFFFF_FFFF,
        shares matches Ok(sealed) ==> sealed@.len() == dealt@.len() && forall|i: int|
            #![trigger sealed@[i]]
            0 <= i < dealt@.len() ==> {
                let share = sealed@[i].share;
                &&& sealed@[i].file_name@ == "mpc-"@ + crate::text::decimal_text(
                    dealt@[i].0@[0] as nat,
                ) + ".hx"@
                &&& share.min_signers == threshold
                &&& share.max_signers == share_count
                &&& share.id == dealt@[i].0@[0]
                &&& crate::crypto::is_random(share.salt)
                &&& crate::crypto::is_random_nonce(share.nonce)
                &&& crate::crypto::aes256gcm_open(
                    crate::crypto::argon2id(passwords@[i]@, share.salt@, 19456, 2, 1),
                    share.nonce@,
                    seq![threshold, share_count, share.id],
                    share.sealed@,
                ) == Some(dealt@[i].1->Ok_0@)
            },
        shares matches Err(e) ==> exists|i: int|
            0 <= i < dealt@.len() && (match (#[trigger] dealt@[i]).1 {
                Err(text) => e@ == ErrorView::Mpc(text@),
                Ok(_) => vstd::utf8::encode_utf8(passwords@[i]@).len() > 0xFFFF_FFFF && e@
                    == ErrorView::Kdf("password is too long"@),
            }),
{
    let ghost texts = crate::files::texts_view(passwords@);
    let mut shares: Vec<NamedShare> = Vec::with_capacity(dealt.len());
    let mut i: usize = 0;
    while i < dealt.len()
        invariant
            i <= dealt@.len() == passwords@.len(),
            texts == crate::files::texts_view(passwords@),
            forall|j: int|
                0 <= j < dealt@.len() ==> ((#[trigger] dealt@[j]).1 matches Ok(payload)
                    ==> payload@.len() <= crate::crypto::max_plaintext_len()),
            shares@.len() == i,
            first_seal_error(dealt@.take(i as int), texts) is None,
            forall|j: int|
                0 <= j < i ==> seals_payload(
                    #[trigger] shares@[j],
                    dealt@[j],
                    threshold,
                    share_count,
                    passwords@[j]@,
                ),
        decreases dealt@.len() - i,
    {
        proof {
            assert(texts[i as int] == passwords@[i as int]@);
            assert(dealt@.take(i + 1).drop_last() =~= dealt@.take(i as int));
            if first_seal_error(dealt@.take(i + 1), texts) is Some {
                lemma_first_seal_error(dealt@, texts, i + 1);
            }
        }
        assert(dealt@[i as int].1 is Err ==> first_seal_error(dealt@, texts) is Some);
        let (identifier, package) = &dealt[i];
        let id: u8 = share_id(identifier);
        let payload = match package {
            Ok(payload) => payload,
            Err(e) => return Err(Error::Mpc(e.clone())),
        };
        let salt = crate::crypto::random_salt();
        let nonce = crate::crypto::random_nonce();
        let aad = [threshold, share_count, id];
        assert(aad@ =~= seq![threshold, share_count, id]);
        let sealed = match crate::crypto::seal(
            payload.as_slice(),
            passwords[i].as_str(),
            &salt,
            &nonce,
            &aad,
        ) {
            Ok(sealed) => sealed,
            Err(e) => return Err(e),
        };
        let share = FrostShare {
            min_signers: threshold,
            max_signers: share_count,
            id,
            salt,
            nonce,
            sealed,
        };
        let file_name = "mpc-".to_owned().concat(decimal(id as usize).as_str()).concat(".hx");
        shares.push(NamedShare { file_name, share });
        i += 1;
    }
    assert(dealt@.take(i as int) =~= dealt@);
    proof {
        lemma_no_seal_error(dealt@, texts);
        assert forall|j: int| 0 <= j < dealt@.len() implies (#[trigger] dealt@[j]).1 is Ok
            && vstd::utf8::encode_utf8(passwords@[j]@).len() <= 0xFFFF_FFFF by {
            assert(texts[j] == passwords@[j]@);
            assert(seal_error(dealt@[j], texts[j]) is None);
        }
        assert forall|j: int| #![trigger shares@[j]] 0 <= j < dealt@.len() implies {
            let share = shares@[j].share;
            crate::crypto::aes256gcm_open(
                crate::crypto::argon2id(passwords@[j]@, share.salt@, 19456, 2, 1),
                share.nonce@,
                seq![threshold, share_count, share.id],
                share.sealed@,
            ) == Some(dealt@[j].1->Ok_0@)
        } by {
            assert(seals_payload(
                shares@[j],
                dealt@[j],
                threshold,
                share_count,
                passwords@[j]@,
            ));
            assert(dealt@[j].1 is Ok);
        }
    }
    Ok(shares)
}

/// The encrypted shares and the group public key package of what was dealt, or
/// the first error: of a key package, in their order, or else of the public key
/// package.
pub fn seal_split(
    dealt: &Vec<Dealt>,
    group_pub: Result<Vec<u8>, String>,
    threshold: u8,
    share_count: u8,
    passwords: &[String],
) -> (split: Result<MpcSplit, Error>)
    requires
        dealt@.len() == passwords@.len(),
        forall|i: int|
            0 <= i < dealt@.len() ==> ((#[trigger] dealt@[i]).1 matches Ok(payload)
                ==> payload@.len() <= crate::crypto::max_plaintext_len()),
    ensures
        match seal_split_error(dealt@, group_pub, crate::files::texts_view(passwords@)) {
            Some(error) => split is Err && split->Err_0@ == error,
            None => split is Ok && split->Ok_0.group_pub@ == group_pub->Ok_0@
                && split->Ok_0.shares@.len() == dealt@.len() && forall|i: int|
                0 <= i < dealt@.len() ==> seals_payload(
                    #[trigger] split->Ok_0.shares@[i],
                    dealt@[i],
                    threshold,
                    share_count,
                    passwords@[i]@,
                ),
        },
        split is Ok <==> group_pub is Ok && forall|i: int|
            0 <= i < dealt@.len() ==> (#[trigger] dealt@[i]).1 is Ok && vstd::utf8::encode_utf8(
                passwords@[i]@,
            ).len() <= 0xFFFF_FFFF,
        split matches Ok(sealed) ==> sealed.group_pub@ == group_pub->Ok_0@ && sealed.shares@.len()
            == dealt@.len() && forall|i: int|
            #![trigger sealed.shares@[i]]
            0 <= i < dealt@.len() ==> {
                let share = sealed.shares@[i].share;
                &&& share.id == dealt@[i].0@[0]
                &&& crate::crypto::aes256gcm_open(
                    crate::crypto::argon2id(passwords@[i]@, share.salt@, 19456, 2, 1),
                    share.nonce@,
                    seq![threshold, share_count, share.id],
                    share.sealed@,
                ) == Some(dealt@[i].1->Ok_0@)
            },
{
    let shares = match seal_shares(dealt, threshold, share_count, passwords) {
        Ok(shares) => shares,
        Err(e) => return Err(e),
    };
    match group_pub {
        Ok(group_pub) => Ok(MpcSplit { shares, group_pub }),
        Err(e) => Err(Error::Mpc(e)),
    }
}

/// What was dealt fails to be sealed if and only if one of the shares is zero
/// or a password cannot be hashed.
pub proof fn only_a_zero_share_fails(
    coeffs: Seq<int>,
    dealt: Seq<Dealt>,
    group: Result<Vec<u8>, String>,
    key: Seq<u8>,
    share_count: u16,
    threshold: u16,
    passwords: Seq<Seq<char>>,
)
    requires
        crate::frost::deals(coeffs, dealt, group, key, share_count, threshold),
        passwords.len() == share_count,
    ensures
        seal_split_error(dealt, group, passwords) is None <==> !crate::frost::has_zero_share(
            coeffs,
            share_count,
        ) && crate::crypto::all_passwords_fit(passwords),
        seal_split_error(dealt, group, passwords) matches Some(error) ==> (error == ErrorView::Mpc(
            "Error serializing value."@,
        ) && crate::frost::has_zero_share(coeffs, share_count)) || (error == ErrorView::Kdf(
            "password is too long"@,
        ) && !crate::crypto::all_passwords_fit(passwords)),
{
    if first_seal_error(dealt, passwords) is Some {
        lemma_some_seal_error(dealt, passwords);
        let i = choose|i: int|
            0 <= i < dealt.len() && seal_error(#[trigger] dealt[i], passwords[i])
                == first_seal_error(dealt, passwords);
        if dealt[i].1 is Err {
            assert(crate::frost::is_zero_share(coeffs, i + 1));
        }
    } else {
        lemma_no_seal_error(dealt, passwords);
        assert forall|i: int| 0 <= i < passwords.len() implies crate::crypto::password_fits(
            #[trigger] passwords[i],
        ) by {
            assert(seal_error(dealt[i], passwords[i]) is None);
        }
    }
}

/// Why what was dealt cannot be sealed, if it cannot: the first error of a key
/// package, or else that of the public key package.
pub open spec fn seal_split_error(
    dealt: Seq<Dealt>,
    group: Result<Vec<u8>, String>,
    passwords: Seq<Seq<char>>,
) -> Option<ErrorView> {
    match first_seal_error(dealt, passwords) {
        Some(error) => Some(error),
        None => match group {
            Err(text) => Some(ErrorView::Mpc(text@)),
            Ok(_) => None,
        },
    }
}

/// A split of a seed was dealt in which one of the shares is zero, so that its
/// key package could not be encoded.
pub open spec fn is_zero_share_dealt(seed: Seq<u8>, threshold: u8, share_count: u8) -> bool {
    exists|coeffs: Seq<int>, dealt: Seq<Dealt>, group: Result<Vec<u8>, String>| #[trigger]
        crate::frost::deals(
            coeffs,
            dealt,
            group,
            crate::frost::ed25519_scalar(seed),
            share_count as u16,
            threshold as u16,
        ) && exists|x: int|
            1 <= x <= share_count && #[trigger] crate::field::eval(coeffs, x)
                % crate::frost::group_order() == 0
}

/// A split of a seed was dealt, and what was dealt cannot be sealed.
pub open spec fn is_failed_split(
    error: ErrorView,
    seed: Seq<u8>,
    threshold: u8,
    share_count: u8,
    passwords: Seq<Seq<char>>,
) -> bool {
    exists|dealt: Seq<Dealt>, group: Result<Vec<u8>, String>|
        crate::frost::is_dealer_split(
            dealt,
            group,
            crate::frost::ed25519_scalar(seed),
            share_count as u16,
            threshold as u16,
        ) && #[trigger] seal_split_error(dealt, group, passwords) == Some(error)
}

/// Deals `key` into `share_count` FROST key shares, requiring `threshold` of
/// them to sign, for one password each: the key packages and the public key
/// package in encoded form. Parameters that are not refused never fail.
pub fn deal_shares(
    key: &SecretKey,
    threshold: u8,
    share_count: u8,
    passwords: &[String],
) -> (deal: Result<(Vec<Dealt>, Result<Vec<u8>, String>), Error>)
    ensures
        match split_error(threshold, share_count, passwords@.len()) {
            Some(error) => deal is Err && deal->Err_0@ == error,
            None => deal is Ok && crate::frost::is_dealer_split(
                deal->Ok_0.0@,
                deal->Ok_0.1,
                crate::frost::ed25519_scalar(key@),
                share_count as u16,
                threshold as u16,
            ),
        },
        deal is Ok <==> 2 <= threshold <= share_count && passwords@.len() == share_count,
        deal matches Err(e) ==> e@ is InvalidParams,
        deal matches Ok(dealt) ==> crate::frost::are_dealt(
            dealt,
            crate::frost::ed25519_scalar(key@),
            share_count as u16,
            threshold as u16,
        ),
{
    if threshold < 2 {
        return Err(Error::InvalidParams("FROST requires a threshold of at least 2".to_owned()));
    }
    if threshold > share_count {
        return Err(
            Error::InvalidParams(
                "threshold (".to_owned().concat(decimal(threshold as usize).as_str()).concat(
                    ") must be at most share count (",
                ).concat(decimal(share_count as usize).as_str()).concat(")"),
            ),
        );
    }
    if passwords.len() != share_count as usize {
        return Err(
            Error::InvalidParams(
                "expected ".to_owned().concat(decimal(share_count as usize).as_str()).concat(
                    " passwords, got ",
                ).concat(decimal(passwords.len()).as_str()),
            ),
        );
    }
    let seed = Secret { bytes: key.to_bytes() };
    let signing_key = match frost_signing_key(&seed.bytes) {
        Ok(key) => key,
        Err(e) => return Err(e),
    };
    let scalar = Secret { bytes: signing_key.to_scalar() };
    match crate::frost::frost_split(&scalar.bytes, share_count as u16, threshold as u16) {
        Ok(deal) => {
            proof {
                crate::frost::dealt_packages_come_from_the_split(
                    deal,
                    scalar.bytes@,
                    share_count as u16,
                    threshold as u16,
                );
            }
            Ok(deal)
        },
        Err(e) => Err(Error::Mpc(e)),
    }
}

/// Dealer-split `key` into `share_count` encrypted FROST key shares, requiring
/// `threshold` of them to sign.
///
/// `passwords[i]` guards the share with participant id `i + 1` (named
/// `mpc-{id}.hx`), mirroring the Mode A convention. Parameters that are not
/// refused are dealt, and the split fails only where what was dealt cannot be
/// sealed; [`only_a_zero_share_fails`] says when that is.
pub fn mpc_split(
    key: &SecretKey,
    threshold: u8,
    share_count: u8,
    passwords: &[String],
) -> (split: Result<MpcSplit, Error>)
    ensures
        match split_error(threshold, share_count, passwords@.len()) {
            Some(error) => split is Err && split->Err_0@ == error,
            None => match split {
                Ok(split) => crate::crypto::all_passwords_fit(crate::files::texts_view(passwords@))
                    && is_mpc_split(
                    split.shares@,
                    split.group_pub@,
                    key@,
                    threshold,
                    share_count,
                    crate::files::texts_view(passwords@),
                ),
                Err(e) => is_failed_split(
                    e@,
                    key@,
                    threshold,
                    share_count,
                    crate::files::texts_view(passwords@),
                ) && (e@ == ErrorView::Mpc("Error serializing value."@) || (
                !crate::crypto::all_passwords_fit(crate::files::texts_view(passwords@)) && e@
                    == ErrorView::Kdf("password is too long"@))),
            },
        },
        (split matches Err(e) && e@ is InvalidParams) <==> !(2 <= threshold <= share_count
            && passwords@.len() == share_count),
        2 <= threshold <= share_count && passwords@.len() == share_count && (forall|i: int|
            0 <= i < passwords@.len() ==> vstd::utf8::encode_utf8(
                (#[trigger] passwords@[i])@,
            ).len() <= 0xFFFF_FFFF) ==> split is Ok || is_zero_share_dealt(
            key@,
            threshold,
            share_count,
        ),
        2 <= threshold <= share_count && passwords@.len() == share_count ==> exists|
            deal: (Vec<Dealt>, Result<Vec<u8>, String>),
        | #[trigger]
            crate::frost::are_dealt(
                deal,
                crate::frost::ed25519_scalar(key@),
                share_count as u16,
                threshold as u16,
            ) && match split {
                Ok(sealed) => {
                    &&& deal.1 is Ok
                    &&& sealed.group_pub@ == deal.1->Ok_0@
                    &&& sealed.shares@.len() == share_count
                    &&& forall|i: int|
                        #![trigger sealed.shares@[i]]
                        0 <= i < share_count ==> {
                            let share = sealed.shares@[i].share;
                            &&& share.id == i + 1
                            &&& deal.0@[i].1 is Ok
                            &&& crate::crypto::aes256gcm_open(
                                crate::crypto::argon2id(
                                    passwords@[i]@,
                                    share.salt@,
                                    19456,
                                    2,
                                    1,
                                ),
                                share.nonce@,
                                seq![threshold, share_count, share.id],
                                share.sealed@,
                            ) == Some(deal.0@[i].1->Ok_0@)
                        }
                },
                Err(_) => deal.1 is Err || exists|i: int|
                    0 <= i < share_count && ((#[trigger] deal.0@[i]).1 is Err
                        || vstd::utf8::encode_utf8(passwords@[i]@).len() > 0xFFFF_FFFF),
            },
{
    let ghost texts = crate::files::texts_view(passwords@);
    let (dealt, group_pub) = match deal_shares(key, threshold, share_count, passwords) {
        Ok(deal) => deal,
        Err(e) => return Err(e),
    };
    let ghost scalar = crate::frost::ed25519_scalar(key@);
    let ghost (n, t) = (share_count as u16, threshold as u16);
    let ghost deal = (dealt, group_pub);
    let ghost coeffs = choose|coeffs: Seq<int>|
        crate::frost::deals(coeffs, dealt@, group_pub, scalar, n, t);
    assert(crate::frost::deals(coeffs, dealt@, group_pub, scalar, n, t));
    let split = seal_split(&dealt, group_pub, threshold, share_count, passwords);
    proof {
        assert(crate::frost::are_dealt(deal, scalar, n, t));
        assert forall|i: int| 0 <= i < share_count implies (#[trigger] dealt@[i]).0@[0] == i
            + 1 by {
            assert(dealt@[i].0@ == crate::frost::identifier_of(i + 1));
        }
        only_a_zero_share_fails(coeffs, dealt@, group_pub, scalar, n, t, texts);
        assert(seal_split_error(dealt@, group_pub, texts) matches Some(error) ==> is_failed_split(
            error,
            key@,
            threshold,
            share_count,
            texts,
        ));
        if crate::frost::has_zero_share(coeffs, n) {
            let x = choose|x: int|
                1 <= x <= n && #[trigger] crate::frost::is_zero_share(coeffs, x);
            assert(crate::field::eval(coeffs, x) % crate::frost::group_order() == 0);
            assert(is_zero_share_dealt(key@, threshold, share_count));
        }
        if forall|i: int|
            0 <= i < passwords@.len() ==> vstd::utf8::encode_utf8(
                (#[trigger] passwords@[i])@,
            ).len() <= 0xFFFF_FFFF {
            assert forall|i: int| 0 <= i < texts.len() implies crate::crypto::password_fits(
                #[trigger] texts[i],
            ) by {
                assert(texts[i] == passwords@[i]@);
            }
        }
        if split is Ok {
            let sealed = split->Ok_0;
            assert forall|i: int| 0 <= i < sealed.shares@.len() implies holds_key_share(
                #[trigger] sealed.shares@[i],
                i,
                key@,
                threshold,
                share_count,
                texts[i],
                coeffs,
            ) by {
                assert(dealt@[i].0@ == crate::frost::identifier_of(i + 1));
                assert(seals_payload(
                    sealed.shares@[i],
                    dealt@[i],
                    threshold,
                    share_count,
                    texts[i],
                ));
            }
            assert(mpc_split_on(
                coeffs,
                sealed.shares@,
                sealed.group_pub@,
                key@,
                threshold,
                share_count,
                texts,
            ));
        }
    }
    split
}

/// What a split hands out: share number `i + 1` is named after and carries its
/// number and the split's parameters, and AES-256-GCM opens in it, under the
/// Argon2id hash of its password, the key package of that participant, whose
/// signing share is the value of the sharing polynomial at its number. The
/// polynomial has as many coefficients as the threshold, of which the lowest is
/// the seed's signing scalar. The group names every participant and the
/// threshold.
pub proof fn split_hands_out_key_packages(
    shares: Seq<NamedShare>,
    group: Seq<u8>,
    seed: Seq<u8>,
    threshold: u8,
    share_count: u8,
    passwords: Seq<Seq<char>>,
) -> (coeffs: Seq<int>)
    requires
        is_mpc_split(shares, group, seed, threshold, share_count, passwords),
        forall|i: int|
            0 <= i < passwords.len() ==> vstd::utf8::encode_utf8(#[trigger] passwords[i]).len()
                <= 0xFFFF_FFFF,
        passwords.len() == share_count,
    ensures
        coeffs.len() == threshold,
        coeffs[0] == crate::bytes::le_value(crate::frost::ed25519_scalar(seed)),
        shares.len() == share_count,
        forall|i: int|
            #![trigger shares[i]]
            0 <= i < shares.len() ==> {
                let share = shares[i].share;
                &&& shares[i].file_name@ == "mpc-"@ + crate::text::decimal_text((i + 1) as nat)
                    + ".hx"@
                &&& share.min_signers == threshold
                &&& share.max_signers == share_count
                &&& share.id == i + 1
                &&& crate::crypto::is_random(share.salt)
                &&& crate::crypto::is_random_nonce(share.nonce)
                &&& crate::crypto::aes256gcm_open(
                    crate::crypto::argon2id(passwords[i], share.salt@, 19456, 2, 1),
                    share.nonce@,
                    seq![threshold, share_count, (i + 1) as u8],
                    share.sealed@,
                ) matches Some(payload) && crate::frost::key_package_parts(payload) == Ok::<
                    crate::frost::KeyParts,
                    Seq<char>,
                >(
                    crate::frost::KeyParts {
                        identifier: crate::frost::identifier_of(i + 1),
                        signing_share: crate::bytes::le_bytes(
                            (crate::field::eval(coeffs, i + 1)
                                % crate::frost::group_order()) as nat,
                            32,
                        ),
                        verifying_share: crate::frost::frost_public_key(
                            crate::bytes::le_bytes(
                                (crate::field::eval(coeffs, i + 1)
                                    % crate::frost::group_order()) as nat,
                                32,
                            ),
                        ),
                        verifying_key: crate::frost::frost_public_key(
                            crate::frost::ed25519_scalar(seed),
                        ),
                        min_signers: threshold as u16,
                    },
                )
            },
        crate::frost::public_key_package_parts(group) matches Ok((members, _, key, min)) && {
            &&& members.len() == share_count
            &&& forall|i: int|
                0 <= i < share_count ==> #[trigger] members[i] == crate::frost::identifier_of(i + 1)
            &&& key == crate::frost::frost_public_key(crate::frost::ed25519_scalar(seed))
            &&& min == Some(threshold as u16)
        },
{
    let coeffs = choose|coeffs: Seq<int>|
        mpc_split_on(coeffs, shares, group, seed, threshold, share_count, passwords);
    assert forall|i: int| #![trigger shares[i]] 0 <= i < shares.len() implies
        crate::crypto::aes256gcm_open(
        crate::crypto::argon2id(passwords[i], shares[i].share.salt@, 19456, 2, 1),
        shares[i].share.nonce@,
        seq![threshold, share_count, (i + 1) as u8],
        shares[i].share.sealed@,
    ) matches Some(payload) && is_participant(payload, i + 1, seed, threshold, coeffs) by {
        assert(holds_key_share(
            shares[i],
            i,
            seed,
            threshold,
            share_count,
            passwords[i],
            coeffs,
        ));
        share_opens_under_its_password_alone(shares[i].share@, passwords[i]);
    }
    coeffs
}

/// The steps of reading the participant ids of share files.
pub open spec fn id_steps(files: Seq<StoredFileView>) -> Seq<Step<u8>> {
    files.map_values(
        |file: StoredFileView|
            crate::steps::silent(
                match read_outcome(file.content) {
                    Ok(share) => Ok(share.id),
                    Err(error) => Err(error),
                },
            ),
    )
}

/// The ids of share files are their seventh bytes, in the order of the files;
/// the first file that cannot be read, or that is no share file, is the error.
pub proof fn ids_are_read_from_the_files(files: Seq<StoredFileView>)
    ensures
        match crate::steps::run(id_steps(files)).result {
            Ok(ids) => ids.len() == files.len() && forall|i: int|
                0 <= i < files.len() ==> ((#[trigger] files[i]).content matches Ok(bytes)
                    && decode_outcome(bytes) is Ok && ids[i] == bytes[6]),
            Err(error) => exists|k: int|
                0 <= k < files.len() && (match (#[trigger] files[k]).content {
                    Ok(bytes) => decode_outcome(bytes) == Err::<FrostShareView, ErrorView>(error),
                    Err(e) => e == error,
                }) && forall|i: int|
                    0 <= i < k ==> ((#[trigger] files[i]).content matches Ok(bytes)
                        && decode_outcome(bytes) is Ok),
        },
{
    let steps = id_steps(files);
    assert forall|i: int| 0 <= i < files.len() implies (#[trigger] steps[i]).result == (
    match read_outcome(files[i].content) {
        Ok(share) => Ok::<u8, ErrorView>(share.id),
        Err(error) => Err(error),
    }) by {}
    if crate::steps::run(steps).result is Ok {
        crate::steps::lemma_run_ok(steps);
        assert forall|i: int| 0 <= i < files.len() implies ((#[trigger] files[i]).content matches Ok(
            bytes,
        ) && decode_outcome(bytes) is Ok && crate::steps::run(steps).result->Ok_0[i] == bytes[6]) by {
            assert(steps[i].result is Ok);
            frost_share_parses_iff_well_formed(files[i].content->Ok_0);
        }
    } else {
        let k = crate::steps::first_failure(steps);
        crate::steps::first_failure_ends_the_run(steps, k);
        assert(0 <= k < files.len() && steps[k].result is Err);
        assert forall|i: int| 0 <= i < k implies ((#[trigger] files[i]).content matches Ok(bytes)
            && decode_outcome(bytes) is Ok) by {
            assert(steps[i].result is Ok);
        }
        assert(files[k].content == files[k].content);
    }
}

/// Read the participant ids from FROST share files without decrypting
/// anything.
pub fn shard_ids(files: &[StoredFile]) -> (ids: Result<Vec<u8>, Error>)
    ensures
        crate::error::outcome(ids) == crate::steps::run(
            id_steps(crate::files::files_view(files@)),
        ).result,
{
    let ghost steps = id_steps(crate::files::files_view(files@));
    let mut ids: Vec<u8> = Vec::new();
    let mut i: usize = 0;
    assert(steps.take(0) =~= Seq::empty());
    while i < files.len()
        invariant
            i <= files@.len(),
            steps == id_steps(crate::files::files_view(files@)),
            crate::steps::run(steps.take(i as int)).result == Ok::<Seq<u8>, ErrorView>(ids@),
        decreases files@.len() - i,
    {
        proof {
            crate::steps::lemma_run_next(steps, i as int);
            assert(crate::files::files_view(files@)[i as int] == files@[i as int]@);
        }
        match FrostShare::read(&files[i].content) {
            Ok(share) => ids.push(share.id),
            Err(e) => {
                proof {
                    crate::steps::lemma_run_failed(steps, i + 1);
                }
                return Err(e);
            },
        }
        i += 1;
    }
    assert(steps.take(i as int) =~= steps);
    Ok(ids)
}

/// The outcome of decoding a group public key package.
pub open spec fn group_outcome(bytes: Seq<u8>) -> Result<Seq<u8>, ErrorView> {
    match crate::frost::public_key_package_parts(bytes) {
        Ok(_) => Ok(bytes),
        Err(text) => Err(ErrorView::Mpc("invalid group public package: "@ + text)),
    }
}

/// The outcome of decoding a group public key package from what reading a file
/// gave.
pub open spec fn read_group_outcome(content: Result<Seq<u8>, ErrorView>) -> Result<
    Seq<u8>,
    ErrorView,
> {
    match content {
        Ok(bytes) => group_outcome(bytes),
        Err(error) => Err(error),
    }
}

/// Deserialize a group public key package, mapping errors to [`Error::Mpc`].
/// Used by both the in-process ([`mpc_sign`]) and air-gapped ([`crate::qr_mpc`])
/// paths, which must accept the same on-disk format.
pub fn deserialize_public_key_package(bytes: &[u8]) -> (group: Result<PublicKeyPackage, Error>)
    ensures
        crate::error::outcome(group) == group_outcome(bytes@),
        match crate::frost::public_key_package_parts(bytes@) {
            Ok(_) => group is Ok && group->Ok_0@ == bytes@,
            Err(text) => group is Err && group->Err_0@ == ErrorView::Mpc(
                "invalid group public package: "@ + text,
            ),
        },
{
    match PublicKeyPackage::deserialize(bytes) {
        Ok(group) => Ok(group),
        Err(e) => Err(Error::Mpc("invalid group public package: ".to_owned().concat(e.as_str()))),
    }
}

/// Reads the group public key package from a file that was read.
fn read_group(content: &Result<Vec<u8>, String>) -> (group: Result<PublicKeyPackage, Error>)
    ensures
        crate::error::outcome(group) == read_group_outcome(
            crate::files::content_outcome(*content),
        ),
{
    match crate::files::contents(content) {
        Ok(bytes) => deserialize_public_key_package(bytes.as_slice()),
        Err(e) => Err(e),
    }
}

/// Read the group verifying key (the Mode A address bytes) from a public key
/// package without touching any share files.
pub fn group_verifying_key(content: &Result<Vec<u8>, String>) -> (key: Result<[u8; 32], Error>)
    ensures
        match read_group_outcome(crate::files::content_outcome(*content)) {
            Ok(group) => key is Ok && key->Ok_0@ == crate::frost::group_key(group),
            Err(error) => key is Err && key->Err_0@ == error,
        },
        match content {
            Err(text) => key is Err && key->Err_0@ == ErrorView::Io(text@),
            Ok(bytes) => match crate::frost::public_key_package_parts(bytes@) {
                Ok((_, _, verifying_key, _)) => key is Ok && key->Ok_0@ == verifying_key,
                Err(text) => key is Err && key->Err_0@ == ErrorView::Mpc(
                    "invalid group public package: "@ + text,
                ),
            },
        },
{
    match read_group(content) {
        Ok(group) => Ok(group.verifying_key()),
        Err(e) => Err(e),
    }
}

/// FROST round 1: generate a nonce pair and its commitment for a participant,
/// in-process. Returns the participant's identifier, nonces (kept secret until
/// round 2) and commitment (sent to the coordinator) in encoded form; the
/// commitment to a nonce of zero has none.
pub fn participant_round1(key_package: &KeyPackage) -> (round: (
    [u8; 32],
    SigningNonces,
    Result<Vec<u8>, String>,
))
    ensures
        round.0@ == crate::frost::key_identifier(key_package@),
        crate::frost::are_nonces_of(round.1@, crate::frost::key_signing_share(key_package@)),
        crate::error::text_outcome(round.2) == crate::frost::nonce_commitments_outcome(round.1@),
        round.2 matches Ok(commitment) ==> crate::frost::canonical_commitments(commitment@),
        match round.2 {
            Ok(commitment) => crate::frost::are_nonzero(round.1@) && commitment@
                == crate::frost::nonce_commitments(round.1@),
            Err(_) => !crate::frost::are_nonzero(round.1@),
        },
{
    let nonces = SigningNonces::generate(key_package);
    let commitment = match nonces.commitments() {
        Ok(commitment) => Ok(vstd::slice::slice_to_vec(commitment.as_slice())),
        Err(e) => Err(e.clone()),
    };
    (key_package.identifier(), nonces, commitment)
}

/// Build the coordinator's signing package from the collected commitments and
/// the message to sign. The message is the same byte string every participant
/// later signs and the coordinator verifies.
pub fn build_signing_package(commitments: IdMap, message: &[u8]) -> (package: SigningPackage)
    ensures
        package.commitments == commitments,
        package.message@ == message@,
{
    SigningPackage { commitments, message: vstd::slice::slice_to_vec(message) }
}

/// The outcome of FROST round 2 for one participant.
pub open spec fn round2_outcome(
    commitments: Map<Seq<u8>, Seq<u8>>,
    message: Seq<u8>,
    nonces: Seq<u8>,
    key_package: Seq<u8>,
) -> Result<Seq<u8>, ErrorView> {
    match crate::frost::frost_signature_share(commitments, message, nonces, key_package) {
        Ok(share) => Ok(share),
        Err(text) => Err(ErrorView::Mpc("failed to produce signature share: "@ + text)),
    }
}

/// FROST's group error in round 2: what had to be encoded is the identity.
pub open spec fn unsignable() -> ErrorView {
    ErrorView::Mpc("failed to produce signature share: "@ + "Error in elliptic curve Group."@)
}

/// FROST round 2: produce one participant's signature share for the signing
/// package. A share only comes out if the package holds this participant's
/// commitment and the nonces match it; then it does, or the error is
/// [`unsignable`].
pub fn participant_round2(
    signing_package: &SigningPackage,
    nonces: &SigningNonces,
    key_package: &KeyPackage,
) -> (share: Result<Vec<u8>, Error>)
    ensures
        crate::error::outcome(share) == round2_outcome(
            signing_package.commitments@,
            signing_package.message@,
            nonces@,
            key_package@,
        ),
        share matches Ok(bytes) ==> crate::frost::canonical_scalar(bytes@)
            && crate::frost::holds_own_commitment(
            signing_package.commitments@,
            nonces@,
            key_package@,
        ),
        crate::frost::canonical(signing_package.commitments@)
            && crate::frost::holds_own_commitment(
            signing_package.commitments@,
            nonces@,
            key_package@,
        ) ==> share is Ok || share->Err_0@ == unsignable(),
        match crate::frost::frost_signature_share(
            signing_package.commitments@,
            signing_package.message@,
            nonces@,
            key_package@,
        ) {
            Ok(expected) => share is Ok && share->Ok_0@ == expected,
            Err(text) => share is Err && share->Err_0@ == ErrorView::Mpc(
                "failed to produce signature share: "@ + text,
            ),
        },
        crate::frost::canonical(signing_package.commitments@)
            && crate::frost::holds_own_commitment(
            signing_package.commitments@,
            nonces@,
            key_package@,
        ) ==> share is Ok || crate::frost::frost_signature_share(
            signing_package.commitments@,
            signing_package.message@,
            nonces@,
            key_package@,
        ) == Err::<Seq<u8>, Seq<char>>("Error in elliptic curve Group."@),
{
    match signing_package.sign(nonces, key_package) {
        Ok(share) => Ok(share),
        Err(e) => Err(
            Error::Mpc("failed to produce signature share: ".to_owned().concat(e.as_str())),
        ),
    }
}

/// The outcome of aggregating signature shares.
pub open spec fn aggregate_outcome(
    commitments: Map<Seq<u8>, Seq<u8>>,
    message: Seq<u8>,
    shares: Map<Seq<u8>, Seq<u8>>,
    group: Seq<u8>,
) -> Result<MpcSignatureView, ErrorView> {
    checked_signature(
        crate::frost::frost_aggregated(commitments, message, shares, group),
        message,
        crate::frost::group_key(group),
    )
}

/// What is made of an aggregated signature: it is handed out only if it
/// verifies under the group's key and is 64 bytes long.
pub open spec fn checked_signature(
    aggregated: Result<Seq<u8>, Seq<char>>,
    message: Seq<u8>,
    verifying_key: Seq<u8>,
) -> Result<MpcSignatureView, ErrorView> {
    match aggregated {
        Err(text) => Err(ErrorView::Mpc("failed to aggregate signature: "@ + text)),
        Ok(signature) => if !crate::frost::frost_verifies(verifying_key, message, signature) {
            Err(ErrorView::Mpc("aggregated signature failed FROST verification"@))
        } else if signature.len() != 64 {
            Err(ErrorView::Mpc("signature is not 64 bytes"@))
        } else {
            Ok(MpcSignatureView { signature, verifying_key })
        },
    }
}

/// Checks an aggregated signature before it is handed out.
pub fn check_signature(
    aggregated: Result<Vec<u8>, String>,
    message: &[u8],
    verifying_key: &[u8; 32],
) -> (signature: Result<MpcSignature, Error>)
    ensures
        crate::error::outcome(signature) == checked_signature(
            crate::error::text_outcome(aggregated),
            message@,
            verifying_key@,
        ),
        signature matches Ok(s) ==> crate::frost::ed25519_verifies(
            s.verifying_key@,
            message@,
            s.signature@,
        ),
        signature is Ok <==> (aggregated matches Ok(bytes) && bytes@.len() == 64
            && crate::frost::frost_verifies(verifying_key@, message@, bytes@)),
        signature matches Ok(s) ==> aggregated matches Ok(bytes) && s.signature@ == bytes@
            && s.verifying_key@ == verifying_key@,
        signature matches Err(e) ==> (match aggregated {
            Err(text) => e@ == ErrorView::Mpc("failed to aggregate signature: "@ + text@),
            Ok(bytes) => e@ == (if crate::frost::frost_verifies(
                verifying_key@,
                message@,
                bytes@,
            ) {
                ErrorView::Mpc("signature is not 64 bytes"@)
            } else {
                ErrorView::Mpc("aggregated signature failed FROST verification"@)
            }),
        }),
{
    let signature = match aggregated {
        Ok(signature) => signature,
        Err(e) => {
            return Err(
                Error::Mpc("failed to aggregate signature: ".to_owned().concat(e.as_str())),
            );
        },
    };
    if !crate::frost::frost_verify(verifying_key, message, signature.as_slice()) {
        return Err(Error::Mpc("aggregated signature failed FROST verification".to_owned()));
    }
    if signature.len() != 64 {
        return Err(Error::Mpc("signature is not 64 bytes".to_owned()));
    }
    let bytes: [u8; 64] = array_at(signature.as_slice(), 0);
    assert(bytes@ =~= signature@);
    Ok(MpcSignature { signature: bytes, verifying_key: *verifying_key })
}

/// The signature verifies over the message under the group's key, which it
/// carries, both as a FROST signature and as a plain Ed25519 signature.
pub open spec fn verifies_under(
    signature: MpcSignatureView,
    message: Seq<u8>,
    group: Seq<u8>,
) -> bool {
    &&& signature.verifying_key == crate::frost::group_key(group)
    &&& signature.signature.len() == 64
    &&& crate::frost::frost_verifies(signature.verifying_key, message, signature.signature)
    &&& crate::frost::ed25519_verifies(signature.verifying_key, message, signature.signature)
}

/// Aggregate signature shares into a single Ed25519 signature and verify it
/// against the group verifying key before returning. A signature that fails
/// verification is never returned; the shares that a quorum of one split makes
/// for the package always make a signature.
pub fn aggregate_signature(
    signing_package: &SigningPackage,
    signature_shares: &IdMap,
    group_pub: &PublicKeyPackage,
) -> (signature: Result<MpcSignature, Error>)
    ensures
        crate::error::outcome(signature) == aggregate_outcome(
            signing_package.commitments@,
            signing_package.message@,
            signature_shares@,
            group_pub@,
        ),
        signature matches Ok(s) ==> verifies_under(s@, signing_package.message@, group_pub@)
            && crate::frost::is_signing_quorum(
            signing_package.commitments@,
            signature_shares@,
            group_pub@,
        ),
        crate::frost::are_quorum_shares(
            signing_package.commitments@,
            signing_package.message@,
            signature_shares@,
            group_pub@,
        ) ==> signature is Ok,
        signature is Ok <==> (crate::frost::frost_aggregated(
            signing_package.commitments@,
            signing_package.message@,
            signature_shares@,
            group_pub@,
        ) matches Ok(bytes) && bytes.len() == 64 && crate::frost::frost_verifies(
            crate::frost::public_key_package_parts(group_pub@)->Ok_0.2,
            signing_package.message@,
            bytes,
        )),
        signature matches Ok(s) ==> {
            &&& crate::frost::frost_aggregated(
                signing_package.commitments@,
                signing_package.message@,
                signature_shares@,
                group_pub@,
            ) == Ok::<Seq<u8>, Seq<char>>(s.signature@)
            &&& s.verifying_key@ == crate::frost::public_key_package_parts(group_pub@)->Ok_0.2
            &&& crate::frost::ed25519_verifies(
                crate::frost::public_key_package_parts(group_pub@)->Ok_0.2,
                signing_package.message@,
                s.signature@,
            )
        },
{
    let aggregated = signing_package.aggregate(signature_shares, group_pub);
    check_signature(aggregated, signing_package.message.as_slice(), &group_pub.verifying_key())
}

/// The step of loading one signer: its share is read, decrypted and held
/// against the group's verifying key.
pub open spec fn load_step(
    file: StoredFileView,
    password: Seq<char>,
    verifying_key: Seq<u8>,
) -> Step<Seq<u8>> {
    match read_outcome(file.content) {
        Err(error) => crate::steps::silent(Err(error)),
        Ok(share) => match share.decrypt_outcome(password) {
            Err(error) => Step { events: seq![(share.id, false)], result: Err(error) },
            Ok(key_package) => Step {
                events: seq![(share.id, true)],
                result: if crate::frost::key_verifying_key(key_package) != verifying_key {
                    Err(ErrorView::MpcGroupMismatch { path: file.path })
                } else {
                    Ok(key_package)
                },
            },
        },
    }
}

/// The steps of loading the signers, each with the password at its position.
pub open spec fn load_steps(
    files: Seq<StoredFileView>,
    passwords: Seq<Seq<char>>,
    verifying_key: Seq<u8>,
) -> Seq<Step<Seq<u8>>> {
    Seq::new(files.len(), |i: int| load_step(files[i], passwords[i], verifying_key))
}

/// Who is to sign: what loading the shares reports, and the encoded group with
/// the key packages of the signers, or the error.
#[verifier::ext_equal]
pub ghost struct Signers {
    /// The id and the outcome of each share decryption.
    pub events: Seq<(u8, bool)>,
    /// The encoded group public key package and the signers' key packages.
    pub result: Result<(Seq<u8>, Seq<Seq<u8>>), ErrorView>,
}

/// The signers of a set of share files: as many as the group's threshold, all
/// of one group.
pub open spec fn signers_of(
    files: Seq<StoredFileView>,
    passwords: Seq<Seq<char>>,
    group_pub: Result<Seq<u8>, ErrorView>,
) -> Signers {
    if passwords.len() != files.len() {
        Signers {
            events: Seq::empty(),
            result: Err(
                ErrorView::InvalidParams(
                    "expected "@ + crate::text::decimal_text(files.len()) + " passwords, got "@
                        + crate::text::decimal_text(passwords.len()),
                ),
            ),
        }
    } else {
        match read_group_outcome(group_pub) {
            Err(error) => Signers { events: Seq::empty(), result: Err(error) },
            Ok(group) => {
                let run = crate::steps::run(
                    load_steps(files, passwords, crate::frost::group_key(group)),
                );
                Signers {
                    events: run.events,
                    result: match run.result {
                        Err(error) => Err(error),
                        Ok(key_packages) => if key_packages.len() < crate::frost::group_threshold(
                            group,
                        ) {
                            Err(
                                ErrorView::NotEnoughShares(
                                    crate::frost::group_threshold(group),
                                    key_packages.len(),
                                ),
                            )
                        } else {
                            Ok((group, key_packages))
                        },
                    },
                }
            },
        }
    }
}

/// What loading one signer comes to. A file that cannot be read is its error; one
/// that is no share file is none; neither is reported. A share that AES-256-GCM
/// does not open under the Argon2id hash of the password is reported as refused,
/// and so is one that holds no key package. One that is opened is reported, and
/// accepted if and only if its key package names the group's verifying key.
pub proof fn signer_is_loaded_for_its_group(
    file: StoredFileView,
    password: Seq<char>,
    verifying_key: Seq<u8>,
)
    requires
        vstd::utf8::encode_utf8(password).len() <= 0xFFFF_FFFF,
    ensures
        ({
            let step = load_step(file, password, verifying_key);
            match file.content {
                Err(error) => step.result == Err::<Seq<u8>, ErrorView>(error) && step.events.len()
                    == 0,
                Ok(bytes) => if !(bytes.len() >= 37 && bytes[0] == 0x48 && bytes[1] == 0x58
                    && bytes[2] == 0x32 && bytes[3] == 1 && bytes[35] + 256 * bytes[36] >= 16
                    && bytes.len() == 37 + bytes[35] + 256 * bytes[36]) {
                    step.result is Err && step.result->Err_0 is InvalidShardFile
                        && step.events.len() == 0
                } else {
                    match crate::crypto::aes256gcm_open(
                        crate::crypto::argon2id(password, bytes.subrange(7, 23), 19456, 2, 1),
                        bytes.subrange(23, 35),
                        seq![bytes[4], bytes[5], bytes[6]],
                        bytes.subrange(37, bytes.len() as int),
                    ) {
                        None => step.result == Err::<Seq<u8>, ErrorView>(
                            ErrorView::Decrypt {
                                id: bytes[6],
                                reason: ErrorView::Aead("aead::Error"@).message(),
                            },
                        ) && step.events == seq![(bytes[6], false)],
                        Some(payload) => match crate::frost::key_package_parts(payload) {
                            Err(text) => step.result == Err::<Seq<u8>, ErrorView>(
                                ErrorView::Mpc("invalid share payload: "@ + text),
                            ) && step.events == seq![(bytes[6], false)],
                            Ok(parts) => step.events == seq![(bytes[6], true)] && step.result == (
                            if parts.verifying_key == verifying_key {
                                Ok::<Seq<u8>, ErrorView>(payload)
                            } else {
                                Err(ErrorView::MpcGroupMismatch { path: file.path })
                            }),
                        },
                    }
                },
            }
        }),
{
    if let Ok(bytes) = file.content {
        frost_share_parses_iff_well_formed(bytes);
        if let Ok(share) = decode_outcome(bytes) {
            share_opens_under_its_password_alone(share, password);
        }
    }
}

/// Who signs: every share file, each opened by the password at its position,
/// all of them shares of the group that the public key package names, and no
/// fewer than its threshold. Otherwise the first share that is not loaded is
/// the error, or that they are too few.
pub proof fn signers_are_loaded_in_order(
    files: Seq<StoredFileView>,
    passwords: Seq<Seq<char>>,
    group: Seq<u8>,
)
    requires
        crate::frost::public_key_package_parts(group) is Ok,
    ensures
        ({
            let key = crate::frost::public_key_package_parts(group)->Ok_0.2;
            let min: int = match crate::frost::public_key_package_parts(group)->Ok_0.3 {
                Some(min) => min as int,
                None => 0,
            };
            let signers = signers_of(files, passwords, Ok(group));
            let ids = Seq::new(files.len(), |i: int| files[i].content->Ok_0[6]);
            &&& passwords.len() != files.len() ==> signers.result == Err::<
                (Seq<u8>, Seq<Seq<u8>>),
                ErrorView,
            >(
                ErrorView::InvalidParams(
                    "expected "@ + crate::text::decimal_text(files.len()) + " passwords, got "@
                        + crate::text::decimal_text(passwords.len()),
                ),
            ) && signers.events.len() == 0
            &&& passwords.len() == files.len() ==> match signers.result {
                Ok((signed_for, key_packages)) => {
                    &&& signed_for == group
                    &&& key_packages.len() == files.len()
                    &&& key_packages.len() >= min
                    &&& signers.events.len() == files.len()
                    &&& forall|i: int|
                        0 <= i < files.len() ==> #[trigger] signers.events[i] == (ids[i], true)
                    &&& forall|i: int|
                        0 <= i < files.len() ==> load_step(
                            #[trigger] files[i],
                            passwords[i],
                            key,
                        ).result == Ok::<Seq<u8>, ErrorView>(key_packages[i])
                },
                Err(error) => {
                    ||| files.len() < min && error == ErrorView::NotEnoughShares(
                        min as nat,
                        files.len(),
                    ) && forall|i: int|
                        0 <= i < files.len() ==> load_step(
                            #[trigger] files[i],
                            passwords[i],
                            key,
                        ).result is Ok
                    ||| exists|k: int|
                        0 <= k < files.len() && #[trigger] load_step(
                            files[k],
                            passwords[k],
                            key,
                        ).result == Err::<Seq<u8>, ErrorView>(error) && signers.events
                            == Seq::new(k as nat, |i: int| (ids[i], true)) + load_step(
                            files[k],
                            passwords[k],
                            key,
                        ).events && forall|i: int|
                            0 <= i < k ==> load_step(
                                #[trigger] files[i],
                                passwords[i],
                                key,
                            ).result is Ok
                },
            }
        }),
{
    let key = crate::frost::public_key_package_parts(group)->Ok_0.2;
    if passwords.len() == files.len() {
        let steps = load_steps(files, passwords, key);
        assert forall|i: int| 0 <= i < files.len() implies #[trigger] steps[i] == load_step(
            files[i],
            passwords[i],
            key,
        ) by {}
        if crate::steps::run(steps).result is Ok {
            crate::steps::lemma_run_ok(steps);
            assert forall|i: int| 0 <= i < files.len() implies load_step(
                #[trigger] files[i],
                passwords[i],
                key,
            ).result == Ok::<Seq<u8>, ErrorView>(crate::steps::run(steps).result->Ok_0[i]) by {
                assert(steps[i].result == Ok::<Seq<u8>, ErrorView>(
                    crate::steps::run(steps).result->Ok_0[i],
                ));
            }
            lemma_loaded_events(files, passwords, key, files.len() as int);
            assert(steps.take(files.len() as int) =~= steps);
        } else {
            let k = crate::steps::first_failure(steps);
            crate::steps::first_failure_ends_the_run(steps, k);
            assert(steps[k] == load_step(files[k], passwords[k], key));
            lemma_loaded_events(files, passwords, key, k);
            crate::steps::lemma_run_next(steps, k);
            assert(crate::steps::run(steps).events =~= Seq::new(
                k as nat,
                |i: int| (files[i].content->Ok_0[6], true),
            ) + steps[k].events);
            assert forall|i: int| 0 <= i < k implies load_step(
                #[trigger] files[i],
                passwords[i],
                key,
            ).result is Ok by {
                assert(steps[i].result is Ok);
            }
        }
    }
}

/// Signers that are loaded are reported with the ids of their shares.
proof fn lemma_loaded_events(
    files: Seq<StoredFileView>,
    passwords: Seq<Seq<char>>,
    verifying_key: Seq<u8>,
    k: int,
)
    requires
        0 <= k <= files.len(),
        forall|i: int|
            0 <= i < k ==> (#[trigger] load_steps(
                files,
                passwords,
                verifying_key,
            )[i]).result is Ok,
    ensures
        crate::steps::run(load_steps(files, passwords, verifying_key).take(k)).result is Ok,
        crate::steps::run(load_steps(files, passwords, verifying_key).take(k)).events.len() == k,
        forall|i: int|
            0 <= i < k ==> #[trigger] crate::steps::run(
                load_steps(files, passwords, verifying_key).take(k),
            ).events[i] == (files[i].content->Ok_0[6], true),
{
    let steps = load_steps(files, passwords, verifying_key);
    assert forall|i: int| 0 <= i < k implies (#[trigger] steps[i]).events == seq![
        (files[i].content->Ok_0[6], true),
    ] by {
        assert(steps[i] == load_step(files[i], passwords[i], verifying_key));
        frost_share_parses_iff_well_formed(files[i].content->Ok_0);
    }
    crate::steps::run_reports_its_steps(steps, k);
    crate::steps::lemma_run_prefix(steps, k);
}

/// The key packages by their encoded form.
pub open spec fn encoded_packages(signers: Seq<KeyPackage>) -> Seq<Seq<u8>> {
    signers.map_values(|k: KeyPackage| k@)
}

/// The nonces by their encoded form.
pub open spec fn encoded_nonces(nonces: Seq<SigningNonces>) -> Seq<Seq<u8>> {
    nonces.map_values(|n: SigningNonces| n@)
}

/// Loads the signers of share files, appending to `events` the id and outcome
/// of each share decryption.
fn load_signers(
    files: &[StoredFile],
    passwords: &[String],
    verifying_key: &[u8; 32],
    events: &mut Vec<(u8, bool)>,
) -> (signers: Result<Vec<KeyPackage>, Error>)
    requires
        passwords@.len() == files@.len(),
    ensures
        ({
            let run = crate::steps::run(
                load_steps(
                    crate::files::files_view(files@),
                    crate::files::texts_view(passwords@),
                    verifying_key@,
                ),
            );
            &&& final(events)@ == old(events)@ + run.events
            &&& match run.result {
                Ok(expected) => signers is Ok && encoded_packages(signers->Ok_0@) == expected,
                Err(error) => signers is Err && signers->Err_0@ == error,
            }
        }),
{
    let ghost steps = load_steps(
        crate::files::files_view(files@),
        crate::files::texts_view(passwords@),
        verifying_key@,
    );
    let mut signers: Vec<KeyPackage> = Vec::new();
    let mut i: usize = 0;
    assert(steps.take(0) =~= Seq::empty());
    assert(encoded_packages(signers@) =~= Seq::empty());
    while i < files.len()
        invariant
            i <= files@.len() == passwords@.len(),
            steps == load_steps(
                crate::files::files_view(files@),
                crate::files::texts_view(passwords@),
                verifying_key@,
            ),
            crate::steps::run(steps.take(i as int)).result == Ok::<Seq<Seq<u8>>, ErrorView>(
                encoded_packages(signers@),
            ),
            events@ == old(events)@ + crate::steps::run(steps.take(i as int)).events,
        decreases files@.len() - i,
    {
        let ghost before = events@;
        let ghost signers_before = signers@;
        proof {
            crate::steps::lemma_run_next(steps, i as int);
            assert(steps[i as int] == load_step(
                files@[i as int]@,
                passwords@[i as int]@,
                verifying_key@,
            ));
        }
        let share = match FrostShare::read(&files[i].content) {
            Ok(share) => share,
            Err(e) => {
                proof {
                    crate::steps::lemma_run_failed(steps, i + 1);
                    assert(events@ =~= before + steps[i as int].events);
                }
                return Err(e);
            },
        };
        let key_package = match share.decrypt(passwords[i].as_str()) {
            Ok(key_package) => {
                events.push((share.id, true));
                key_package
            },
            Err(e) => {
                events.push((share.id, false));
                proof {
                    crate::steps::lemma_run_failed(steps, i + 1);
                    assert(events@ =~= before + steps[i as int].events);
                }
                return Err(e);
            },
        };
        assert(events@ =~= before + steps[i as int].events);
        if !same_bytes(&key_package.verifying_key(), verifying_key) {
            proof {
                crate::steps::lemma_run_failed(steps, i + 1);
            }
            return Err(Error::MpcGroupMismatch { path: files[i].path.clone() });
        }
        signers.push(key_package);
        i += 1;
        assert(encoded_packages(signers@) =~= encoded_packages(signers_before).push(key_package@));
    }
    assert(steps.take(i as int) =~= steps);
    Ok(signers)
}

/// The map that holds `value(i)` under the identifier of each signer; of two
/// with the same identifier the later counts.
pub open spec fn by_identifier(key_packages: Seq<Seq<u8>>, values: Seq<Seq<u8>>) -> Map<
    Seq<u8>,
    Seq<u8>,
>
    decreases key_packages.len(),
{
    if key_packages.len() == 0 {
        Map::empty()
    } else {
        by_identifier(key_packages.drop_last(), values.drop_last()).insert(
            crate::frost::key_identifier(key_packages.last()),
            values.last(),
        )
    }
}

/// A map by identifier holds a value for the identifiers of the signers and for
/// no others: the value of the last signer with that identifier.
pub proof fn map_holds_the_values_of_the_signers(
    key_packages: Seq<Seq<u8>>,
    values: Seq<Seq<u8>>,
)
    requires
        values.len() == key_packages.len(),
    ensures
        forall|id: Seq<u8>| #[trigger]
            by_identifier(key_packages, values).dom().contains(id) <==> exists|i: int|
                0 <= i < key_packages.len() && crate::frost::key_identifier(
                    #[trigger] key_packages[i],
                ) == id,
        forall|i: int|
            #![trigger key_packages[i]]
            0 <= i < key_packages.len() && (forall|j: int|
                i < j < key_packages.len() ==> crate::frost::key_identifier(
                    #[trigger] key_packages[j],
                ) != crate::frost::key_identifier(key_packages[i])) ==> by_identifier(
                key_packages,
                values,
            )[crate::frost::key_identifier(key_packages[i])] == values[i],
    decreases key_packages.len(),
{
    let map = by_identifier(key_packages, values);
    if key_packages.len() > 0 {
        let (fewer, fewer_values) = (key_packages.drop_last(), values.drop_last());
        map_holds_the_values_of_the_signers(fewer, fewer_values);
        let before = by_identifier(fewer, fewer_values);
        let last = key_packages.len() - 1;
        assert(key_packages.last() == key_packages[last]);
        assert forall|id: Seq<u8>| #[trigger] map.dom().contains(id) <==> exists|i: int|
            0 <= i < key_packages.len() && crate::frost::key_identifier(
                #[trigger] key_packages[i],
            ) == id by {
            if before.dom().contains(id) {
                let i = choose|i: int|
                    0 <= i < fewer.len() && crate::frost::key_identifier(#[trigger] fewer[i]) == id;
                assert(key_packages[i] == fewer[i]);
            }
            if exists|i: int|
                0 <= i < key_packages.len() && crate::frost::key_identifier(
                    #[trigger] key_packages[i],
                ) == id {
                let i = choose|i: int|
                    0 <= i < key_packages.len() && crate::frost::key_identifier(
                        #[trigger] key_packages[i],
                    ) == id;
                if i < last {
                    assert(fewer[i] == key_packages[i]);
                }
            }
        }
        assert forall|i: int|
            #![trigger key_packages[i]]
            0 <= i < key_packages.len() && (forall|j: int|
                i < j < key_packages.len() ==> crate::frost::key_identifier(
                    #[trigger] key_packages[j],
                ) != crate::frost::key_identifier(key_packages[i])) implies map[crate::frost::key_identifier(
            key_packages[i],
        )] == values[i] by {
            if i < last {
                assert(fewer[i] == key_packages[i]);
                assert(key_packages[last] == key_packages.last());
                assert forall|j: int| i < j < fewer.len() implies crate::frost::key_identifier(
                    #[trigger] fewer[j],
                ) != crate::frost::key_identifier(fewer[i]) by {
                    assert(fewer[j] == key_packages[j]);
                }
            }
        }
    }
}

/// Under the identifier of a signer stand the commitments to the nonces of the
/// last signer with that identifier; no one else has committed.
pub proof fn commitments_are_those_of_the_signers(
    key_packages: Seq<Seq<u8>>,
    nonces: Seq<Seq<u8>>,
)
    requires
        nonces.len() == key_packages.len(),
    ensures
        forall|id: Seq<u8>| #[trigger]
            commitments_of(key_packages, nonces).dom().contains(id) <==> exists|i: int|
                0 <= i < key_packages.len() && crate::frost::key_identifier(
                    #[trigger] key_packages[i],
                ) == id,
        forall|i: int|
            #![trigger key_packages[i]]
            0 <= i < key_packages.len() && (forall|j: int|
                i < j < key_packages.len() ==> crate::frost::key_identifier(
                    #[trigger] key_packages[j],
                ) != crate::frost::key_identifier(key_packages[i])) ==> commitments_of(
                key_packages,
                nonces,
            )[crate::frost::key_identifier(key_packages[i])] == crate::frost::nonce_commitments(
                nonces[i],
            ),
{
    map_holds_the_values_of_the_signers(
        key_packages,
        nonces.map_values(|n: Seq<u8>| crate::frost::nonce_commitments(n)),
    );
}

/// The commitments of the signers to their nonces.
pub open spec fn commitments_of(key_packages: Seq<Seq<u8>>, nonces: Seq<Seq<u8>>) -> Map<
    Seq<u8>,
    Seq<u8>,
> {
    by_identifier(key_packages, nonces.map_values(|n: Seq<u8>| crate::frost::nonce_commitments(n)))
}

/// The steps of round 2: each signer's signature share.
pub open spec fn round2_steps(
    commitments: Map<Seq<u8>, Seq<u8>>,
    message: Seq<u8>,
    key_packages: Seq<Seq<u8>>,
    nonces: Seq<Seq<u8>>,
) -> Seq<Step<Seq<u8>>> {
    Seq::new(
        key_packages.len(),
        |i: int|
            crate::steps::silent(round2_outcome(commitments, message, nonces[i], key_packages[i])),
    )
}

/// No nonce is zero.
pub open spec fn all_nonzero(nonces: Seq<Seq<u8>>) -> bool {
    forall|i: int| 0 <= i < nonces.len() ==> crate::frost::are_nonzero(#[trigger] nonces[i])
}

/// The outcome of signing with nonces that were drawn.
pub open spec fn sign_outcome(
    group: Seq<u8>,
    message: Seq<u8>,
    key_packages: Seq<Seq<u8>>,
    nonces: Seq<Seq<u8>>,
) -> Result<MpcSignatureView, ErrorView> {
    let commitments = commitments_of(key_packages, nonces);
    if !all_nonzero(nonces) {
        Err(unsignable())
    } else {
        match crate::steps::run(round2_steps(commitments, message, key_packages, nonces)).result {
            Err(error) => Err(error),
            Ok(shares) => aggregate_outcome(
                commitments,
                message,
                by_identifier(key_packages, shares),
                group,
            ),
        }
    }
}

/// Signing fails for a cause: a nonce that was drawn is zero, FROST's round 2
/// gave one of the signers an error, or FROST did not aggregate their shares to
/// a signature of 64 bytes that verifies under the group's key. Where there is
/// none, a signature comes out, whatever the message.
pub proof fn signing_fails_for_a_cause(
    group: Seq<u8>,
    message: Seq<u8>,
    key_packages: Seq<Seq<u8>>,
    nonces: Seq<Seq<u8>>,
)
    requires
        nonces.len() == key_packages.len(),
    ensures
        match sign_outcome(group, message, key_packages, nonces) {
            Ok(signature) => {
                &&& forall|i: int|
                    0 <= i < nonces.len() ==> crate::frost::are_nonzero(#[trigger] nonces[i])
                        && crate::frost::frost_signature_share(
                        commitments_of(key_packages, nonces),
                        message,
                        nonces[i],
                        key_packages[i],
                    ) is Ok
                &&& signature.signature.len() == 64
                &&& signature.verifying_key == crate::frost::public_key_package_parts(
                    group,
                )->Ok_0.2
                &&& crate::frost::frost_verifies(
                    crate::frost::public_key_package_parts(group)->Ok_0.2,
                    message,
                    signature.signature,
                )
                &&& crate::frost::frost_aggregated(
                    commitments_of(key_packages, nonces),
                    message,
                    by_identifier(
                        key_packages,
                        shares_made(key_packages, nonces, commitments_of(key_packages, nonces), message),
                    ),
                    group,
                ) == Ok::<Seq<u8>, Seq<char>>(signature.signature)
            },
            Err(error) => {
                ||| (exists|i: int|
                    0 <= i < nonces.len() && !crate::frost::are_nonzero(#[trigger] nonces[i]))
                    && error == ErrorView::Mpc(
                    "failed to produce signature share: "@ + "Error in elliptic curve Group."@,
                )
                ||| exists|i: int|
                    0 <= i < nonces.len() && (crate::frost::frost_signature_share(
                        commitments_of(key_packages, nonces),
                        message,
                        #[trigger] nonces[i],
                        key_packages[i],
                    ) matches Err(text) && error == ErrorView::Mpc(
                        "failed to produce signature share: "@ + text,
                    )) && forall|j: int|
                        0 <= j < i ==> crate::frost::frost_signature_share(
                            commitments_of(key_packages, nonces),
                            message,
                            #[trigger] nonces[j],
                            key_packages[j],
                        ) is Ok
                ||| crate::frost::frost_aggregated(
                    commitments_of(key_packages, nonces),
                    message,
                    by_identifier(
                        key_packages,
                        shares_made(key_packages, nonces, commitments_of(key_packages, nonces), message),
                    ),
                    group,
                ) matches Err(text) && error == ErrorView::Mpc(
                    "failed to aggregate signature: "@ + text,
                )
                ||| crate::frost::frost_aggregated(
                    commitments_of(key_packages, nonces),
                    message,
                    by_identifier(
                        key_packages,
                        shares_made(key_packages, nonces, commitments_of(key_packages, nonces), message),
                    ),
                    group,
                ) matches Ok(signature) && (if !crate::frost::frost_verifies(
                    crate::frost::public_key_package_parts(group)->Ok_0.2,
                    message,
                    signature,
                ) {
                    error == ErrorView::Mpc("aggregated signature failed FROST verification"@)
                } else {
                    signature.len() != 64 && error == ErrorView::Mpc("signature is not 64 bytes"@)
                })
            },
        },
{
    let commitments = commitments_of(key_packages, nonces);
    if all_nonzero(nonces) {
        let steps = round2_steps(commitments, message, key_packages, nonces);
        assert forall|i: int| 0 <= i < steps.len() implies (#[trigger] steps[i]).result
            == round2_outcome(commitments, message, nonces[i], key_packages[i]) by {}
        if crate::steps::run(steps).result is Ok {
            crate::steps::lemma_run_ok(steps);
            let shares = crate::steps::run(steps).result->Ok_0;
            let made = shares_made(key_packages, nonces, commitments, message);
            assert forall|i: int| 0 <= i < nonces.len() implies crate::frost::are_nonzero(
                #[trigger] nonces[i],
            ) && crate::frost::frost_signature_share(
                commitments,
                message,
                nonces[i],
                key_packages[i],
            ) == Ok::<Seq<u8>, Seq<char>>(shares[i]) by {
                assert(steps[i].result == Ok::<Seq<u8>, ErrorView>(shares[i]));
            }
            assert(made =~= shares) by {
                assert forall|i: int| 0 <= i < shares.len() implies made[i] == shares[i] by {
                    assert(crate::frost::are_nonzero(nonces[i]));
                }
            }
        } else {
            let k = crate::steps::first_failure(steps);
            crate::steps::first_failure_ends_the_run(steps, k);
            assert(crate::frost::are_nonzero(nonces[k]));
            assert forall|j: int| 0 <= j < k implies crate::frost::frost_signature_share(
                commitments,
                message,
                #[trigger] nonces[j],
                key_packages[j],
            ) is Ok by {
                assert(steps[j].result is Ok);
            }
        }
    }
}

/// The signature shares that FROST's round 2 gives the signers.
pub open spec fn shares_made(
    key_packages: Seq<Seq<u8>>,
    nonces: Seq<Seq<u8>>,
    commitments: Map<Seq<u8>, Seq<u8>>,
    message: Seq<u8>,
) -> Seq<Seq<u8>> {
    Seq::new(
        key_packages.len(),
        |i: int|
            crate::frost::frost_signature_share(
                commitments,
                message,
                nonces[i],
                key_packages[i],
            )->Ok_0,
    )
}

/// Those who committed are members of the group and no fewer than its
/// threshold.
pub open spec fn is_quorum(commitments: Map<Seq<u8>, Seq<u8>>, group: Seq<u8>) -> bool {
    &&& forall|id: Seq<u8>|
        commitments.dom().contains(id) ==> #[trigger] crate::frost::group_members(group).contains(
            id,
        )
    &&& commitments.len() >= crate::frost::group_threshold(group)
}

/// A signature verifies under the group's key; those who made it are members of
/// the group and no fewer than its threshold; and the commitments that were
/// signed hold each signer's own, and no fewer than its key package asks for.
pub open spec fn is_signed_by(
    signature: MpcSignatureView,
    group: Seq<u8>,
    message: Seq<u8>,
    key_packages: Seq<Seq<u8>>,
    nonces: Seq<Seq<u8>>,
) -> bool {
    &&& verifies_under(signature, message, group)
    &&& is_quorum(commitments_of(key_packages, nonces), group)
    &&& forall|i: int|
        0 <= i < key_packages.len() ==> crate::frost::holds_own_commitment(
            commitments_of(key_packages, nonces),
            nonces[i],
            #[trigger] key_packages[i],
        )
}

/// No nonce is zero, and the commitments to them are in canonical form.
pub open spec fn are_committed(nonces: Seq<Seq<u8>>) -> bool {
    forall|i: int|
        0 <= i < nonces.len() ==> (#[trigger] nonces[i]).len() == 64 && crate::frost::are_nonzero(
            nonces[i],
        ) && crate::frost::canonical_commitments(crate::frost::nonce_commitments(nonces[i]))
}

/// Under the identifier of each signer stands its value, if no two signers have
/// the same identifier.
proof fn lemma_by_identifier(key_packages: Seq<Seq<u8>>, values: Seq<Seq<u8>>, i: int)
    requires
        values.len() == key_packages.len(),
        0 <= i < key_packages.len(),
        forall|j: int, k: int|
            0 <= j < k < key_packages.len() ==> crate::frost::key_identifier(
                #[trigger] key_packages[j],
            ) != crate::frost::key_identifier(#[trigger] key_packages[k]),
    ensures
        by_identifier(key_packages, values)[crate::frost::key_identifier(key_packages[i])]
            == values[i],
    decreases key_packages.len(),
{
    let (fewer, fewer_values) = (key_packages.drop_last(), values.drop_last());
    if i < fewer.len() {
        assert forall|j: int, k: int|
            0 <= j < k < fewer.len() implies crate::frost::key_identifier(#[trigger] fewer[j])
            != crate::frost::key_identifier(#[trigger] fewer[k]) by {
            assert(fewer[j] == key_packages[j] && fewer[k] == key_packages[k]);
        }
        lemma_by_identifier(fewer, fewer_values, i);
        assert(fewer[i] == key_packages[i]);
        assert(key_packages.last() == key_packages[key_packages.len() - 1]);
    }
}

/// The signers of a quorum are distinct, and they are those whose values stand
/// in a map by their identifiers.
proof fn lemma_quorum_map(
    quorum: Quorum,
    group: Seq<u8>,
    values: Seq<Seq<u8>>,
)
    requires
        quorum.belongs_to(group),
        values.len() == quorum.key_packages.len(),
    ensures
        by_identifier(quorum.key_packages, values).dom() == quorum.identifiers(),
        by_identifier(quorum.key_packages, values).len() == quorum.numbers.len(),
        forall|k: int|
            0 <= k < values.len() ==> #[trigger] by_identifier(
                quorum.key_packages,
                values,
            )[crate::frost::identifier_of(quorum.numbers[k])] == values[k],
{
    let packages = quorum.key_packages;
    let ids = quorum.numbers.map_values(|x: int| crate::frost::identifier_of(x));
    assert forall|k: int| 0 <= k < packages.len() implies crate::frost::key_identifier(
        #[trigger] packages[k],
    ) == ids[k] && ids[k][0] == quorum.numbers[k] by {
        assert(1 <= quorum.numbers[k] <= quorum.share_count);
    }
    assert forall|j: int, k: int| 0 <= j < k < packages.len() implies crate::frost::key_identifier(
        #[trigger] packages[j],
    ) != crate::frost::key_identifier(#[trigger] packages[k]) by {
        assert(quorum.numbers[j] != quorum.numbers[k]);
    }
    lemma_by_identifier_dom(packages, values);
    assert(packages.map_values(|k: Seq<u8>| crate::frost::key_identifier(k)) =~= ids);
    assert(ids.no_duplicates()) by {
        assert forall|j: int, k: int| 0 <= j < ids.len() && 0 <= k < ids.len() && j != k implies
            ids[j] != ids[k] by {
            assert(ids[j] == crate::frost::key_identifier(packages[j]));
            assert(ids[k] == crate::frost::key_identifier(packages[k]));
        }
    }
    ids.unique_seq_to_set();
    assert forall|k: int| 0 <= k < values.len() implies #[trigger] by_identifier(
        packages,
        values,
    )[crate::frost::identifier_of(quorum.numbers[k])] == values[k] by {
        lemma_by_identifier(packages, values, k);
        assert(crate::frost::key_identifier(packages[k]) == ids[k]);
    }
}

/// The commitments of a quorum are well-formed, and hold each signer's own and
/// no fewer than it asks for.
proof fn lemma_quorum_commitments(
    quorum: Quorum,
    group: Seq<u8>,
    nonces: Seq<Seq<u8>>,
)
    requires
        quorum.belongs_to(group),
        nonces.len() == quorum.key_packages.len(),
        are_committed(nonces),
    ensures
        crate::frost::canonical(commitments_of(quorum.key_packages, nonces)),
        commitments_of(quorum.key_packages, nonces).dom() == quorum.identifiers(),
        forall|k: int|
            0 <= k < nonces.len() ==> crate::frost::holds_own_commitment(
                commitments_of(quorum.key_packages, nonces),
                nonces[k],
                #[trigger] quorum.key_packages[k],
            ),
{
    let packages = quorum.key_packages;
    let public = nonces.map_values(|n: Seq<u8>| crate::frost::nonce_commitments(n));
    let map = commitments_of(packages, nonces);
    lemma_quorum_map(quorum, group, public);
    let ids = quorum.numbers.map_values(|x: int| crate::frost::identifier_of(x));
    assert forall|k: int| 0 <= k < nonces.len() implies crate::frost::holds_own_commitment(
        map,
        nonces[k],
        #[trigger] packages[k],
    ) by {
        assert(1 <= quorum.numbers[k] <= quorum.share_count);
        assert(ids[k] == crate::frost::identifier_of(quorum.numbers[k]));
        assert(ids.to_set().contains(ids[k]));
        assert(map[ids[k]] == public[k]);
        assert(crate::frost::are_nonzero(nonces[k]));
    }
    assert forall|id: Seq<u8>| #[trigger] map.dom().contains(id) implies crate::frost::valid_scalar(
        id,
    ) && crate::frost::canonical_commitments(map[id]) by {
        let k = choose|k: int| 0 <= k < ids.len() && ids[k] == id;
        assert(1 <= quorum.numbers[k] <= quorum.share_count);
        crate::frost::lemma_identifier_is_valid(quorum.numbers[k]);
        assert(map[crate::frost::identifier_of(quorum.numbers[k])] == public[k]);
        assert(crate::frost::are_nonzero(nonces[k]));
    }
}

/// Why signers with valid shares get no signature: a nonce is zero, or FROST's
/// round 2 gives one of them the group error.
pub open spec fn has_group_failure(
    message: Seq<u8>,
    key_packages: Seq<Seq<u8>>,
    nonces: Seq<Seq<u8>>,
) -> bool {
    exists|i: int|
        0 <= i < nonces.len() && (!crate::frost::are_nonzero(#[trigger] nonces[i])
            || crate::frost::frost_signature_share(
            commitments_of(key_packages, nonces),
            message,
            nonces[i],
            key_packages[i],
        ) == Err::<Seq<u8>, Seq<char>>("Error in elliptic curve Group."@))
}

/// Runs both rounds with nonces that were drawn, one for each signer. Signers
/// that hold distinct shares of one split, no fewer than its threshold, make a
/// signature or fail as [`unsignable`] says. A nonce of zero cannot sign.
pub fn sign_with_nonces(
    group_pub: &PublicKeyPackage,
    message: &[u8],
    signers: &Vec<KeyPackage>,
    nonces: &Vec<SigningNonces>,
) -> (signature: Result<MpcSignature, Error>)
    requires
        signers@.len() == nonces@.len(),
    ensures
        crate::error::outcome(signature) == sign_outcome(
            group_pub@,
            message@,
            encoded_packages(signers@),
            encoded_nonces(nonces@),
        ),
        signature matches Ok(s) ==> is_signed_by(
            s@,
            group_pub@,
            message@,
            encoded_packages(signers@),
            encoded_nonces(nonces@),
        ),
        crate::frost::are_quorum_packages(encoded_packages(signers@), group_pub@)
            ==> signature is Ok || signature->Err_0@ == unsignable(),
        crate::frost::are_quorum_packages(encoded_packages(signers@), group_pub@)
            ==> signature is Ok || exists|i: int|
            0 <= i < nonces@.len() && (!crate::frost::are_nonzero((#[trigger] nonces@[i])@)
                || crate::frost::frost_signature_share(
                commitments_of(encoded_packages(signers@), encoded_nonces(nonces@)),
                message@,
                nonces@[i]@,
                signers@[i]@,
            ) == Err::<Seq<u8>, Seq<char>>("Error in elliptic curve Group."@)),
        (forall|i: int|
            0 <= i < nonces@.len() ==> crate::frost::are_nonzero((#[trigger] nonces@[i])@)
                && crate::frost::frost_signature_share(
                commitments_of(encoded_packages(signers@), encoded_nonces(nonces@)),
                message@,
                nonces@[i]@,
                signers@[i]@,
            ) is Ok) && crate::frost::are_quorum_packages(
            encoded_packages(signers@),
            group_pub@,
        ) ==> signature is Ok,
        signature matches Ok(s) ==> s.verifying_key@ == crate::frost::public_key_package_parts(
            group_pub@,
        )->Ok_0.2 && crate::frost::frost_verifies(s.verifying_key@, message@, s.signature@)
            && crate::frost::ed25519_verifies(s.verifying_key@, message@, s.signature@),
{
    let ghost packages = encoded_packages(signers@);
    let ghost secrets = encoded_nonces(nonces@);
    let ghost public = secrets.map_values(|n: Seq<u8>| crate::frost::nonce_commitments(n));
    let mut commitments = IdMap::new();
    let mut i: usize = 0;
    while i < signers.len()
        invariant
            i <= signers@.len() == nonces@.len(),
            packages == encoded_packages(signers@),
            secrets == encoded_nonces(nonces@),
            public == secrets.map_values(|n: Seq<u8>| crate::frost::nonce_commitments(n)),
            commitments@ == by_identifier(packages.take(i as int), public.take(i as int)),
            are_committed(secrets.take(i as int)),
        decreases signers@.len() - i,
    {
        assert(secrets[i as int] == nonces@[i as int]@);
        match nonces[i].commitments() {
            Ok(commitment) => commitments.insert(
                signers[i].identifier(),
                vstd::slice::slice_to_vec(commitment.as_slice()),
            ),
            Err(_) => {
                assert(!all_nonzero(secrets));
                assert(!crate::frost::are_nonzero(nonces@[i as int]@));
                return Err(
                    Error::Mpc(
                        "failed to produce signature share: ".to_owned().concat(
                            "Error in elliptic curve Group.",
                        ),
                    ),
                );
            },
        }
        i += 1;
        proof {
            assert(packages.take(i as int).drop_last() =~= packages.take(i - 1));
            assert(public.take(i as int).drop_last() =~= public.take(i - 1));
            assert(packages[i - 1] == signers@[i - 1]@);
            assert(secrets[i - 1] == nonces@[i - 1]@);
            assert(secrets.take(i as int) =~= secrets.take(i - 1).push(secrets[i - 1]));
        }
    }
    assert(packages.take(i as int) =~= packages);
    assert(public.take(i as int) =~= public);
    assert(secrets.take(i as int) =~= secrets);
    assert(all_nonzero(secrets));
    let ghost quorum = choose|quorum: Quorum| #[trigger]
        quorum.belongs_to(group_pub@) && quorum.key_packages == packages;
    let ghost is_quorum = crate::frost::are_quorum_packages(packages, group_pub@);
    proof {
        if is_quorum {
            lemma_quorum_commitments(quorum, group_pub@, secrets);
        }
    }
    let signing_package = build_signing_package(commitments, message);
    let ghost steps = round2_steps(commitments@, message@, packages, secrets);
    let ghost mut shares: Seq<Seq<u8>> = Seq::empty();
    let mut signature_shares = IdMap::new();
    let mut i: usize = 0;
    assert(steps.take(0) =~= Seq::empty());
    while i < signers.len()
        invariant
            i <= signers@.len() == nonces@.len(),
            packages == encoded_packages(signers@),
            secrets == encoded_nonces(nonces@),
            commitments@ == commitments_of(packages, secrets),
            all_nonzero(secrets),
            signing_package.commitments@ == commitments@,
            signing_package.message@ == message@,
            steps == round2_steps(commitments@, message@, packages, secrets),
            shares.len() == i,
            crate::steps::run(steps.take(i as int)).result == Ok::<Seq<Seq<u8>>, ErrorView>(shares),
            signature_shares@ == by_identifier(packages.take(i as int), shares),
            forall|j: int|
                0 <= j < i ==> crate::frost::holds_own_commitment(
                    commitments@,
                    secrets[j],
                    #[trigger] packages[j],
                ),
            forall|j: int|
                0 <= j < i ==> crate::frost::frost_signature_share(
                    commitments@,
                    message@,
                    secrets[j],
                    packages[j],
                ) == Ok::<Seq<u8>, Seq<char>>(#[trigger] shares[j]),
            is_quorum == crate::frost::are_quorum_packages(packages, group_pub@),
            is_quorum ==> crate::frost::canonical(commitments@) && forall|j: int|
                0 <= j < packages.len() ==> crate::frost::holds_own_commitment(
                    commitments@,
                    secrets[j],
                    #[trigger] packages[j],
                ),
        decreases signers@.len() - i,
    {
        proof {
            crate::steps::lemma_run_next(steps, i as int);
            assert(packages[i as int] == signers@[i as int]@);
            assert(secrets[i as int] == nonces@[i as int]@);
        }
        match participant_round2(&signing_package, &nonces[i], &signers[i]) {
            Ok(share) => {
                proof {
                    let before = shares;
                    shares = shares.push(share@);
                    assert(shares.drop_last() =~= before);
                    assert(packages.take(i + 1).drop_last() =~= packages.take(i as int));
                }
                signature_shares.insert(signers[i].identifier(), share);
            },
            Err(e) => {
                proof {
                    crate::steps::lemma_run_failed(steps, i + 1);
                    assert(is_quorum ==> crate::frost::frost_signature_share(
                        commitments@,
                        message@,
                        nonces@[i as int]@,
                        signers@[i as int]@,
                    ) == Err::<Seq<u8>, Seq<char>>("Error in elliptic curve Group."@));
                }
                return Err(e);
            },
        }
        i += 1;
    }
    assert(steps.take(i as int) =~= steps);
    assert(packages.take(i as int) =~= packages);
    proof {
        if is_quorum {
            lemma_quorum_map(quorum, group_pub@, shares);
            assert forall|k: int| 0 <= k < secrets.len() implies (#[trigger] secrets[k]).len() == 64
                && crate::frost::frost_signature_share(
                commitments@,
                message@,
                secrets[k],
                quorum.key_packages[k],
            ) == Ok::<Seq<u8>, Seq<char>>(
                signature_shares@[crate::frost::identifier_of(quorum.numbers[k])],
            ) by {
                assert(signature_shares@[crate::frost::identifier_of(quorum.numbers[k])]
                    == shares[k]);
            }
            assert(quorum.makes_shares(secrets, commitments@, message@, signature_shares@));
        }
    }
    aggregate_signature(&signing_package, &signature_shares, group_pub)
}

/// The nonces are those of the signers: each pair is made of the signing share
/// in the key package at its position.
pub open spec fn are_drawn(key_packages: Seq<Seq<u8>>, nonces: Seq<Seq<u8>>) -> bool {
    &&& nonces.len() == key_packages.len()
    &&& forall|i: int|
        0 <= i < nonces.len() ==> crate::frost::are_nonces_of(
            #[trigger] nonces[i],
            crate::frost::key_signing_share(key_packages[i]),
        )
}

/// The outcome of signing follows from nonces that the signers drew. Signers
/// that hold distinct shares of one split, no fewer than its threshold, make a
/// signature or fail as [`unsignable`] says.
pub open spec fn is_signing(
    outcome: Result<MpcSignatureView, ErrorView>,
    group: Seq<u8>,
    message: Seq<u8>,
    key_packages: Seq<Seq<u8>>,
) -> bool {
    &&& exists|nonces: Seq<Seq<u8>>|
        {
            &&& are_drawn(key_packages, nonces)
            &&& outcome == #[trigger] sign_outcome(group, message, key_packages, nonces)
            &&& outcome matches Ok(signature) ==> is_signed_by(
                signature,
                group,
                message,
                key_packages,
                nonces,
            )
            &&& crate::frost::are_quorum_packages(key_packages, group) && outcome is Err
                ==> has_group_failure(message, key_packages, nonces)
        }
    &&& crate::frost::are_quorum_packages(key_packages, group) ==> outcome is Ok || outcome == Err::<
        MpcSignatureView,
        ErrorView,
    >(unsignable())
}

/// Draws nonces for each signer.
fn draw_nonces(signers: &Vec<KeyPackage>) -> (nonces: Vec<SigningNonces>)
    ensures
        nonces@.len() == signers@.len(),
        are_drawn(encoded_packages(signers@), encoded_nonces(nonces@)),
{
    let ghost packages = encoded_packages(signers@);
    let mut nonces: Vec<SigningNonces> = Vec::with_capacity(signers.len());
    let mut i: usize = 0;
    assert(encoded_nonces(nonces@) =~= Seq::empty());
    while i < signers.len()
        invariant
            i <= signers@.len(),
            packages == encoded_packages(signers@),
            nonces@.len() == i,
            are_drawn(packages.take(i as int), encoded_nonces(nonces@)),
        decreases signers@.len() - i,
    {
        let ghost before = encoded_nonces(nonces@);
        let (_, drawn, _) = participant_round1(&signers[i]);
        let ghost secret = drawn@;
        nonces.push(drawn);
        i += 1;
        proof {
            assert(packages[i - 1] == signers@[i - 1]@);
            assert(encoded_nonces(nonces@) =~= before.push(secret));
            assert forall|j: int| 0 <= j < i implies crate::frost::are_nonces_of(
                #[trigger] encoded_nonces(nonces@)[j],
                crate::frost::key_signing_share(packages.take(i as int)[j]),
            ) by {
                if j < i - 1 {
                    assert(crate::frost::are_nonces_of(
                        before[j],
                        crate::frost::key_signing_share(packages.take(i - 1)[j]),
                    ));
                }
            }
        }
    }
    assert(packages.take(i as int) =~= packages);
    nonces
}

/// Run the two-round FROST protocol over `message` with one in-process
/// participant per share file, and aggregate their signature shares.
///
/// Each share's id and whether its decryption succeeded are appended to
/// `events` (used by the audit layer). The full signing key is never
/// reconstructed: only nonces, commitments, and signature shares exist. Any
/// threshold of the shares of one split signs, as [`threshold_of_shares_signs`]
/// says.
pub fn mpc_sign(
    files: &[StoredFile],
    passwords: &[String],
    group_pub: &Result<Vec<u8>, String>,
    message: &[u8],
    events: &mut Vec<(u8, bool)>,
) -> (signature: Result<MpcSignature, Error>)
    ensures
        ({
            let signers = signers_of(
                crate::files::files_view(files@),
                crate::files::texts_view(passwords@),
                crate::files::content_outcome(*group_pub),
            );
            &&& final(events)@ == old(events)@ + signers.events
            &&& match signers.result {
                Err(error) => signature is Err && signature->Err_0@ == error,
                Ok((group, key_packages)) => is_signing(
                    crate::error::outcome(signature),
                    group,
                    message@,
                    key_packages,
                ),
            }
        }),
{
    if passwords.len() != files.len() {
        return Err(
            Error::InvalidParams(
                "expected ".to_owned().concat(decimal(files.len()).as_str()).concat(
                    " passwords, got ",
                ).concat(decimal(passwords.len()).as_str()),
            ),
        );
    }
    let group = match read_group(group_pub) {
        Ok(group) => group,
        Err(e) => return Err(e),
    };
    let signers = match load_signers(files, passwords, &group.verifying_key(), events) {
        Ok(signers) => signers,
        Err(e) => return Err(e),
    };
    let min: usize = group.min_signers();
    if signers.len() < min {
        return Err(Error::NotEnoughShares(min, signers.len()));
    }
    let nonces = draw_nonces(&signers);
    let signature = sign_with_nonces(&group, message, &signers, &nonces);
    proof {
        let (packages, secrets) = (encoded_packages(signers@), encoded_nonces(nonces@));
        assert(crate::error::outcome(signature) == sign_outcome(
            group@,
            message@,
            packages,
            secrets,
        ));
        if crate::frost::are_quorum_packages(packages, group@) && signature is Err {
            let i = choose|i: int|
                0 <= i < nonces@.len() && (!crate::frost::are_nonzero((#[trigger] nonces@[i])@)
                    || crate::frost::frost_signature_share(
                    commitments_of(packages, secrets),
                    message@,
                    nonces@[i]@,
                    signers@[i]@,
                ) == Err::<Seq<u8>, Seq<char>>("Error in elliptic curve Group."@));
            assert(secrets[i] == nonces@[i]@ && packages[i] == signers@[i]@);
            assert(has_group_failure(message@, packages, secrets));
        }
    }
    signature
}

/// The entries of an attempt to sign that began at `began`: one for each share
/// decryption, and, if a signature came out, a last one with the time at which
/// it did.
pub open spec fn attempt_entries(
    began: u64,
    attempt: u64,
    events: Seq<(u8, bool)>,
    signed_at: Option<u64>,
) -> Seq<crate::audit::Entry> {
    let decryptions = crate::audit::Entry::of_events(began, attempt, events);
    match signed_at {
        Some(ts) => decryptions.push(
            crate::audit::Entry {
                ts,
                attempt,
                shard: None,
                outcome: crate::audit::Outcome::Signed,
            },
        ),
        None => decryptions,
    }
}

/// An attempt has one entry for each decryption, in their order, with the time at
/// which the attempt began and the share's id; a signature has one more, the
/// last, with the time at which it came out and no share.
pub proof fn attempt_has_an_entry_for_each_event(
    began: u64,
    attempt: u64,
    events: Seq<(u8, bool)>,
    signed_at: Option<u64>,
)
    ensures
        attempt_entries(began, attempt, events, signed_at).len() == events.len() + (if signed_at
            is Some {
            1int
        } else {
            0
        }),
        forall|i: int|
            0 <= i < events.len() ==> {
                let entry = #[trigger] attempt_entries(began, attempt, events, signed_at)[i];
                &&& entry.ts == began
                &&& entry.attempt == attempt
                &&& entry.shard == Some(events[i].0)
                &&& events[i].1 ==> entry.outcome == crate::audit::Outcome::Decrypted
                &&& !events[i].1 ==> entry.outcome == crate::audit::Outcome::Refused
            },
        signed_at matches Some(ts) ==> {
            let entry = attempt_entries(began, attempt, events, signed_at).last();
            &&& entry.ts == ts
            &&& entry.attempt == attempt
            &&& entry.shard is None
            &&& entry.outcome == crate::audit::Outcome::Signed
        },
{
}

/// Records an attempt to sign in the access log.
pub fn record_attempt(
    log: &mut Vec<crate::audit::Entry>,
    began: u64,
    attempt: u64,
    events: &Vec<(u8, bool)>,
    signed_at: Option<u64>,
)
    ensures
        final(log)@ == old(log)@ + attempt_entries(began, attempt, events@, signed_at),
{
    crate::audit::record(log, began, attempt, events);
    if let Some(ts) = signed_at {
        log.push(crate::audit::Entry::signed(ts, attempt));
    }
    assert(log@ =~= old(log)@ + attempt_entries(began, attempt, events@, signed_at));
}

/// Like [`mpc_sign`], recording each participant's decryption outcome, with the
/// time `ts` at which the attempt began, and a final `signed` entry, with the
/// time that `now_ms` tells once a signature came out, in the access log.
pub fn mpc_sign_with_audit<Clock: FnOnce() -> u64>(
    files: &[StoredFile],
    passwords: &[String],
    group_pub: &Result<Vec<u8>, String>,
    message: &[u8],
    log: &mut Vec<crate::audit::Entry>,
    ts: u64,
    attempt: u64,
    now_ms: Clock,
) -> (signature: Result<MpcSignature, Error>)
    requires
        call_requires(now_ms, ()),
    ensures
        ({
            let signers = signers_of(
                crate::files::files_view(files@),
                crate::files::texts_view(passwords@),
                crate::files::content_outcome(*group_pub),
            );
            &&& match signers.result {
                Err(error) => signature is Err && signature->Err_0@ == error,
                Ok((group, key_packages)) => is_signing(
                    crate::error::outcome(signature),
                    group,
                    message@,
                    key_packages,
                ),
            }
            &&& match signature {
                Ok(_) => exists|signed_at: u64| #[trigger]
                    call_ensures(now_ms, (), signed_at) && final(log)@ == old(log)@
                        + attempt_entries(ts, attempt, signers.events, Some(signed_at)),
                Err(_) => final(log)@ == old(log)@ + attempt_entries(
                    ts,
                    attempt,
                    signers.events,
                    None,
                ),
            }
        }),
{
    let mut events: Vec<(u8, bool)> = Vec::new();
    let signature = mpc_sign(files, passwords, group_pub, message, &mut events);
    let signed_at: Option<u64> = if signature.is_ok() {
        Some(now_ms())
    } else {
        None
    };
    record_attempt(log, ts, attempt, &events, signed_at);
    signature
}

/// The shares of one split, each opened with its password, are accepted as
/// signers of their group, any threshold of them or more, in any order: each is
/// the participant of its share on the sharing polynomial.
pub proof fn threshold_of_shares_may_sign(
    coeffs: Seq<int>,
    shares: Seq<NamedShare>,
    group: Seq<u8>,
    seed: Seq<u8>,
    threshold: u8,
    share_count: u8,
    passwords: Seq<Seq<char>>,
    picked: Seq<int>,
    files: Seq<StoredFileView>,
    texts: Seq<Seq<char>>,
)
    requires
        mpc_split_on(coeffs, shares, group, seed, threshold, share_count, passwords),
        threshold <= picked.len(),
        files.len() == picked.len(),
        texts.len() == picked.len(),
        forall|k: int|
            0 <= k < picked.len() ==> {
                &&& 0 <= #[trigger] picked[k] < share_count
                &&& files[k].content == Ok::<Seq<u8>, ErrorView>(
                    shares[picked[k]].share@.encoding(),
                )
                &&& texts[k] == passwords[picked[k]]
            },
    ensures
        signers_of(files, texts, Ok(group)).result matches Ok((_, key_packages))
            && key_packages.len() == picked.len() && forall|k: int|
            0 <= k < picked.len() ==> is_participant(
                #[trigger] key_packages[k],
                picked[k] + 1,
                seed,
                threshold,
                coeffs,
            ),
{
    let opened = Seq::new(
        picked.len(),
        |k: int| shares[picked[k]].share@.decrypt_outcome(passwords[picked[k]])->Ok_0,
    );
    let steps = load_steps(files, texts, crate::frost::group_key(group));
    assert forall|k: int| 0 <= k < steps.len() implies (#[trigger] steps[k]).result == Ok::<
        Seq<u8>,
        ErrorView,
    >(opened[k]) && is_participant(opened[k], picked[k] + 1, seed, threshold, coeffs) by {
        let i = picked[k];
        assert(holds_key_share(
            shares[i],
            i,
            seed,
            threshold,
            share_count,
            passwords[i],
            coeffs,
        ));
        frost_share_round_trip(shares[i].share@);
    }
    crate::steps::lemma_run_all(steps, opened);
    assert forall|k: int| 0 <= k < picked.len() implies is_participant(
        #[trigger] opened[k],
        picked[k] + 1,
        seed,
        threshold,
        coeffs,
    ) by {
        assert(steps[k].result == Ok::<Seq<u8>, ErrorView>(opened[k]));
    }
}

/// Distinct shares of one split, no fewer than its threshold, are read and
/// opened, each with its password, as the key packages of a quorum of the
/// split.
pub proof fn shares_are_a_quorum(
    shares: Seq<NamedShare>,
    group: Seq<u8>,
    seed: Seq<u8>,
    threshold: u8,
    share_count: u8,
    passwords: Seq<Seq<char>>,
    picked: Seq<int>,
) -> (quorum: Quorum)
    requires
        is_mpc_split(shares, group, seed, threshold, share_count, passwords),
        threshold <= picked.len(),
        picked.no_duplicates(),
        forall|k: int| 0 <= k < picked.len() ==> 0 <= #[trigger] picked[k] < share_count,
    ensures
        quorum.belongs_to(group),
        quorum.key == crate::frost::ed25519_scalar(seed),
        quorum.numbers.len() == picked.len(),
        forall|k: int|
            0 <= k < picked.len() ==> {
                let share = shares[#[trigger] picked[k]].share@;
                &&& quorum.numbers[k] == picked[k] + 1
                &&& decode_outcome(share.encoding()) == Ok::<FrostShareView, ErrorView>(share)
                &&& share.decrypt_outcome(passwords[picked[k]]) == Ok::<Seq<u8>, ErrorView>(
                    quorum.key_packages[k],
                )
            },
{
    let coeffs = choose|coeffs: Seq<int>|
        mpc_split_on(coeffs, shares, group, seed, threshold, share_count, passwords);
    let key_packages = Seq::new(
        picked.len(),
        |k: int| shares[picked[k]].share@.decrypt_outcome(passwords[picked[k]])->Ok_0,
    );
    let quorum = Quorum {
        coeffs,
        key: crate::frost::ed25519_scalar(seed),
        share_count: share_count as u16,
        threshold: threshold as u16,
        numbers: Seq::new(picked.len(), |k: int| picked[k] + 1),
        key_packages,
    };
    assert forall|k: int| 0 <= k < picked.len() implies {
        let share = shares[#[trigger] picked[k]].share@;
        &&& quorum.numbers[k] == picked[k] + 1
        &&& decode_outcome(share.encoding()) == Ok::<FrostShareView, ErrorView>(share)
        &&& share.decrypt_outcome(passwords[picked[k]]) == Ok::<Seq<u8>, ErrorView>(
            key_packages[k],
        )
        &&& is_participant(key_packages[k], picked[k] + 1, seed, threshold, coeffs)
    } by {
        let i = picked[k];
        assert(holds_key_share(
            shares[i],
            i,
            seed,
            threshold,
            share_count,
            passwords[i],
            coeffs,
        ));
        frost_share_round_trip(shares[i].share@);
    }
    assert(quorum.belongs_to(group)) by {
        assert forall|j: int, k: int|
            0 <= j < picked.len() && 0 <= k < picked.len() && j != k implies quorum.numbers[j]
            != quorum.numbers[k] by {
            assert(picked[j] != picked[k]);
        }
        assert forall|k: int| 0 <= k < quorum.numbers.len() implies 1
            <= #[trigger] quorum.numbers[k] <= quorum.share_count && crate::frost::is_key_share(
            key_packages[k],
            quorum.numbers[k],
            quorum.key,
            quorum.threshold,
            coeffs,
        ) by {
            assert(quorum.numbers[k] == picked[k] + 1);
        }
    }
    quorum
}

/// Any threshold of the shares of one split signs: distinct shares, no fewer
/// than the threshold, each opened with its password, are accepted as signers
/// of their group, and signing any message with them gives a signature that
/// verifies under the seed's own verifying key. It fails only where a nonce that
/// one of them drew is zero, or where FROST's round 2 gives one of them the
/// group error, and then with that error.
pub proof fn threshold_of_shares_signs(
    shares: Seq<NamedShare>,
    group: Seq<u8>,
    seed: Seq<u8>,
    threshold: u8,
    share_count: u8,
    passwords: Seq<Seq<char>>,
    picked: Seq<int>,
    files: Seq<StoredFileView>,
    texts: Seq<Seq<char>>,
    message: Seq<u8>,
    outcome: Result<MpcSignatureView, ErrorView>,
)
    requires
        is_mpc_split(shares, group, seed, threshold, share_count, passwords),
        threshold <= picked.len(),
        picked.no_duplicates(),
        files.len() == picked.len(),
        texts.len() == picked.len(),
        forall|k: int|
            0 <= k < picked.len() ==> {
                &&& 0 <= #[trigger] picked[k] < share_count
                &&& files[k].content == Ok::<Seq<u8>, ErrorView>(
                    shares[picked[k]].share@.encoding(),
                )
                &&& texts[k] == passwords[picked[k]]
            },
    ensures
        signers_of(files, texts, Ok(group)).result matches Ok((signed_for, key_packages))
            && signed_for == group && crate::frost::are_quorum_packages(key_packages, group) && (
        is_signing(outcome, group, message, key_packages) ==> match outcome {
            Ok(signature) => {
                &&& signature.verifying_key == seed_verifying_key(seed)
                &&& crate::frost::frost_verifies(
                    seed_verifying_key(seed),
                    message,
                    signature.signature,
                )
                &&& crate::frost::ed25519_verifies(
                    seed_verifying_key(seed),
                    message,
                    signature.signature,
                )
            },
            Err(error) => {
                &&& error == ErrorView::Mpc(
                    "failed to produce signature share: "@ + "Error in elliptic curve Group."@,
                )
                &&& exists|nonces: Seq<Seq<u8>>|
                    #![trigger commitments_of(key_packages, nonces)]
                    nonces.len() == key_packages.len() && (forall|i: int|
                        0 <= i < nonces.len() ==> crate::frost::are_nonces_of(
                            #[trigger] nonces[i],
                            crate::frost::key_package_parts(key_packages[i])->Ok_0.signing_share,
                        )) && exists|i: int|
                        0 <= i < nonces.len() && (!crate::frost::are_nonzero(#[trigger] nonces[i])
                            || crate::frost::frost_signature_share(
                            commitments_of(key_packages, nonces),
                            message,
                            nonces[i],
                            key_packages[i],
                        ) == Err::<Seq<u8>, Seq<char>>("Error in elliptic curve Group."@))
            },
        }),
{
    let quorum = shares_are_a_quorum(
        shares,
        group,
        seed,
        threshold,
        share_count,
        passwords,
        picked,
    );
    let key_packages = quorum.key_packages;
    let steps = load_steps(files, texts, crate::frost::group_key(group));
    assert forall|k: int| 0 <= k < steps.len() implies (#[trigger] steps[k]).result == Ok::<
        Seq<u8>,
        ErrorView,
    >(key_packages[k]) by {
        assert(quorum.numbers[k] == picked[k] + 1);
    }
    crate::steps::lemma_run_all(steps, key_packages);
    if is_signing(outcome, group, message, key_packages) {
        if let Ok(signature) = outcome {
            let _ = lemma_signing_nonces(group, message, key_packages, signature);
        } else {
            let nonces = lemma_failed_nonces(outcome, group, message, key_packages);
            assert(commitments_of(key_packages, nonces) == commitments_of(key_packages, nonces));
        }
    }
}

/// Signers of one split that fail drew nonces for which they fail.
proof fn lemma_failed_nonces(
    outcome: Result<MpcSignatureView, ErrorView>,
    group: Seq<u8>,
    message: Seq<u8>,
    key_packages: Seq<Seq<u8>>,
) -> (nonces: Seq<Seq<u8>>)
    requires
        is_signing(outcome, group, message, key_packages),
        crate::frost::are_quorum_packages(key_packages, group),
        outcome is Err,
    ensures
        are_drawn(key_packages, nonces),
        has_group_failure(message, key_packages, nonces),
{
    choose|nonces: Seq<Seq<u8>>|
        {
            &&& are_drawn(key_packages, nonces)
            &&& outcome == #[trigger] sign_outcome(group, message, key_packages, nonces)
            &&& has_group_failure(message, key_packages, nonces)
        }
}

/// The group into which a seed is split verifies under the seed's own
/// verifying key, the Mode A address, asks for the threshold of the split, and
/// names the verifying share of each participant.
pub proof fn group_key_is_the_address(
    group: Seq<u8>,
    seed: Seq<u8>,
    threshold: u8,
    share_count: u8,
    coeffs: Seq<int>,
)
    requires
        is_group_of(group, seed, threshold, share_count, coeffs),
    ensures
        group_outcome(group) == Ok::<Seq<u8>, ErrorView>(group),
        crate::frost::group_key(group) == seed_verifying_key(seed),
        crate::frost::group_threshold(group) == threshold,
        crate::frost::group_members(group).len() == share_count,
        forall|i: int, key_package: Seq<u8>|
            0 <= i < share_count && #[trigger] is_participant(
                key_package,
                i + 1,
                seed,
                threshold,
                coeffs,
            ) ==> crate::frost::group_members(group)[i] == crate::frost::key_identifier(key_package)
                && #[trigger] crate::frost::group_verifying_shares(group)[i]
                == crate::frost::key_verifying_share(key_package),
{
}

/// The identifiers of those who sign.
pub open spec fn signer_identifiers(key_packages: Seq<Seq<u8>>) -> Set<Seq<u8>> {
    key_packages.map_values(|k: Seq<u8>| crate::frost::key_identifier(k)).to_set()
}

proof fn lemma_by_identifier_dom(key_packages: Seq<Seq<u8>>, values: Seq<Seq<u8>>)
    ensures
        by_identifier(key_packages, values).dom() == signer_identifiers(key_packages),
    decreases key_packages.len(),
{
    let ids = key_packages.map_values(|k: Seq<u8>| crate::frost::key_identifier(k));
    let dom = by_identifier(key_packages, values).dom();
    if key_packages.len() == 0 {
        assert(ids.to_set() =~= Set::empty());
    } else {
        let fewer = key_packages.drop_last();
        lemma_by_identifier_dom(fewer, values.drop_last());
        let fewer_ids = fewer.map_values(|k: Seq<u8>| crate::frost::key_identifier(k));
        assert(ids =~= fewer_ids.push(crate::frost::key_identifier(key_packages.last())));
        assert forall|id: Seq<u8>| dom.contains(id) <==> ids.to_set().contains(id) by {
            if ids.contains(id) {
                let i = choose|i: int| 0 <= i < ids.len() && ids[i] == id;
                if i < fewer_ids.len() {
                    assert(fewer_ids[i] == id);
                }
            }
            if fewer_ids.contains(id) {
                let i = choose|i: int| 0 <= i < fewer_ids.len() && fewer_ids[i] == id;
                assert(ids[i] == id);
            }
            assert(ids[ids.len() - 1] == crate::frost::key_identifier(key_packages.last()));
        }
        assert(dom =~= ids.to_set());
    }
}

/// A signature made by the group into which a seed is split verifies, for a
/// plain Ed25519 verifier too, under the seed's own verifying key, and was made
/// by members of the group, no fewer distinct ones than the threshold of the
/// split.
pub proof fn shares_sign_for_the_address(
    group: Seq<u8>,
    seed: Seq<u8>,
    threshold: u8,
    share_count: u8,
    coeffs: Seq<int>,
    message: Seq<u8>,
    key_packages: Seq<Seq<u8>>,
    signature: MpcSignatureView,
)
    requires
        is_group_of(group, seed, threshold, share_count, coeffs),
        is_signing(Ok(signature), group, message, key_packages),
    ensures
        signature.verifying_key == seed_verifying_key(seed),
        crate::frost::frost_verifies(seed_verifying_key(seed), message, signature.signature),
        crate::frost::ed25519_verifies(seed_verifying_key(seed), message, signature.signature),
        signer_identifiers(key_packages).len() >= threshold,
        forall|id: Seq<u8>|
            signer_identifiers(key_packages).contains(id)
                ==> #[trigger] crate::frost::group_members(group).contains(id),
{
    let nonces = lemma_signing_nonces(group, message, key_packages, signature);
    lemma_by_identifier_dom(
        key_packages,
        nonces.map_values(|n: Seq<u8>| crate::frost::nonce_commitments(n)),
    );
}

proof fn lemma_signing_nonces(
    group: Seq<u8>,
    message: Seq<u8>,
    key_packages: Seq<Seq<u8>>,
    signature: MpcSignatureView,
) -> (nonces: Seq<Seq<u8>>)
    requires
        is_signing(Ok(signature), group, message, key_packages),
    ensures
        are_drawn(key_packages, nonces),
        sign_outcome(group, message, key_packages, nonces) == Ok::<MpcSignatureView, ErrorView>(
            signature,
        ),
        is_signed_by(signature, group, message, key_packages, nonces),
{
    choose|nonces: Seq<Seq<u8>>|
        {
            &&& are_drawn(key_packages, nonces)
            &&& Ok::<MpcSignatureView, ErrorView>(signature) == #[trigger] sign_outcome(
                group,
                message,
                key_packages,
                nonces,
            )
            &&& is_signed_by(signature, group, message, key_packages, nonces)
        }
}

/// A share that is given twice does not sign twice: a signature only comes out
/// if signers with the same identifier drew nonces with the same commitments,
/// and the distinct signers are no fewer than any of them asks for.
pub proof fn repeated_share_does_not_sign(
    group: Seq<u8>,
    message: Seq<u8>,
    key_packages: Seq<Seq<u8>>,
    signature: MpcSignatureView,
) -> (nonces: Seq<Seq<u8>>)
    requires
        is_signing(Ok(signature), group, message, key_packages),
    ensures
        are_drawn(key_packages, nonces),
        sign_outcome(group, message, key_packages, nonces) == Ok::<MpcSignatureView, ErrorView>(
            signature,
        ),
        forall|i: int, j: int|
            0 <= i < j < key_packages.len() && crate::frost::key_identifier(
                #[trigger] key_packages[i],
            ) == crate::frost::key_identifier(#[trigger] key_packages[j])
                ==> crate::frost::nonce_commitments(nonces[i]) == crate::frost::nonce_commitments(
                nonces[j],
            ),
        forall|i: int|
            0 <= i < key_packages.len() ==> signer_identifiers(key_packages).len()
                >= crate::frost::key_min_signers(#[trigger] key_packages[i]),
{
    let nonces = lemma_signing_nonces(group, message, key_packages, signature);
    lemma_by_identifier_dom(
        key_packages,
        nonces.map_values(|n: Seq<u8>| crate::frost::nonce_commitments(n)),
    );
    nonces
}

/// A share that is not opened says so: the error names the share's id, or the
/// payload that came out.
pub proof fn unopened_share_is_named(share: FrostShareView, password: Seq<char>)
    ensures
        share.decrypt_outcome(password) matches Err(error) ==> (error matches ErrorView::Decrypt {
            id,
            ..
        } && id == share.id) || error is Mpc,
{
}

} // verus!
