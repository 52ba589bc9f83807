//! Encrypted shard files (Mode A).
//!
//! Layout: magic | version | threshold | share count | id | salt | nonce |
//! sealed share value with its authentication tag.
use vstd::prelude::*;
use vstd::string::*;

use crate::bytes::{array_at, same_bytes};
use crate::error::{Error, ErrorView};
use crate::text::decimal;
use crate::{NONCE_LEN, SALT_LEN, SHARD_MAGIC, SHARD_VERSION, SHARE_VALUE_LEN, TAG_LEN};

verus! {

/// Length of the sealed share value with its tag.
pub const SEALED_LEN: usize = SHARE_VALUE_LEN + TAG_LEN;

/// Length of a shard file.
pub const SHARD_LEN: usize = 7 + SALT_LEN + NONCE_LEN + SEALED_LEN;

/// An encrypted shard on disk.
#[derive(Debug, Clone, PartialEq, Eq)]
pub struct Shard {
    /// Shards required to reconstruct the key.
    pub threshold: u8,
    /// Total number of shards of the split.
    pub share_count: u8,
    /// Number of this shard, from 1 on.
    pub id: u8,
    /// Argon2id salt.
    pub salt: [u8; SALT_LEN],
    /// AES-256-GCM nonce.
    pub nonce: [u8; NONCE_LEN],
    /// Encrypted share value with appended authentication tag.
    pub sealed: [u8; SEALED_LEN],
}

impl View for Shard {
    type V = Shard;

    open spec fn view(&self) -> Shard {
        *self
    }
}

/// The associated data that binds a shard to its place in the split.
pub fn aad(threshold: u8, share_count: u8, id: u8) -> (aad: [u8; 3])
    ensures
        aad@ == seq![threshold, share_count, id],
{
    let aad = [threshold, share_count, id];
    assert(aad@ =~= seq![threshold, share_count, id]);
    aad
}

impl Shard {
    /// The bytes of a shard file.
    pub open spec fn encoding(self) -> Seq<u8> {
        SHARD_MAGIC@ + seq![SHARD_VERSION, self.threshold, self.share_count, self.id] + self.salt@
            + self.nonce@ + self.sealed@
    }

    /// The outcome of decrypting the shard under a password.
    pub open spec fn decrypt_outcome(self, password: Seq<char>) -> Result<Seq<u8>, ErrorView> {
        match crate::crypto::open_outcome(
            self.sealed@,
            password,
            self.salt@,
            self.nonce@,
            seq![self.threshold, self.share_count, self.id],
        ) {
            Ok(value) => Ok(value),
            Err(error) => Err(ErrorView::Decrypt { id: self.id, reason: error.message() }),
        }
    }

    /// A shard of these parts.
    pub fn new(
        threshold: u8,
        share_count: u8,
        id: u8,
        salt: [u8; SALT_LEN],
        nonce: [u8; NONCE_LEN],
        sealed: [u8; SEALED_LEN],
    ) -> (shard: Shard)
        ensures
            shard == (Shard { threshold, share_count, id, salt, nonce, sealed }),
    {
        Shard { threshold, share_count, id, salt, nonce, sealed }
    }

    /// Serialize to the binary layout.
    pub fn to_bytes(&self) -> (bytes: Vec<u8>)
        ensures
            bytes@ == self.encoding(),
            bytes@ == seq![
                0x48u8,
                0x58u8,
                0x31u8,
                1u8,
                self.threshold,
                self.share_count,
                self.id,
            ] + self.salt@ + self.nonce@ + self.sealed@,
    {
        proof {
            shard_layout(*self);
        }
        let mut out: Vec<u8> = Vec::with_capacity(SHARD_LEN);
        out.extend_from_slice(&SHARD_MAGIC);
        out.push(SHARD_VERSION);
        out.push(self.threshold);
        out.push(self.share_count);
        out.push(self.id);
        out.extend_from_slice(&self.salt);
        out.extend_from_slice(&self.nonce);
        out.extend_from_slice(&self.sealed);
        assert(out@ =~= self.encoding());
        out
    }

    /// Deserialize from the binary layout, validating magic/version/length.
    pub fn from_bytes(bytes: &[u8]) -> (shard: Result<Shard, Error>)
        ensures
            crate::error::outcome(shard) == decode_outcome(bytes@),
            shard matches Ok(s) ==> s.encoding() == bytes@,
            shard is Ok <==> bytes@.len() == 83 && bytes@[0] == 0x48 && bytes@[1] == 0x58
                && bytes@[2] == 0x31 && bytes@[3] == 1,
            shard matches Ok(s) ==> s.threshold == bytes@[4] && s.share_count == bytes@[5] && s.id
                == bytes@[6] && s.salt@ == bytes@.subrange(7, 23) && s.nonce@ == bytes@.subrange(
                23,
                35,
            ) && s.sealed@ == bytes@.subrange(35, 83),
    {
        proof {
            shard_parses_iff_well_formed(bytes@);
        }
        if bytes.len() != SHARD_LEN {
            return Err(
                Error::InvalidShardFile(
                    "expected ".to_owned().concat(decimal(SHARD_LEN).as_str()).concat(
                        " bytes, got ",
                    ).concat(decimal(bytes.len()).as_str()),
                ),
            );
        }
        if !same_bytes(vstd::slice::slice_subrange(bytes, 0, 3), &SHARD_MAGIC) {
            return Err(
                Error::InvalidShardFile("bad magic bytes; not a horcrux shard".to_owned()),
            );
        }
        if bytes[3] != SHARD_VERSION {
            return Err(
                Error::InvalidShardFile(
                    "unsupported version ".to_owned().concat(decimal(bytes[3] as usize).as_str()),
                ),
            );
        }
        let shard = Shard {
            threshold: bytes[4],
            share_count: bytes[5],
            id: bytes[6],
            salt: array_at(bytes, 7),
            nonce: array_at(bytes, 7 + SALT_LEN),
            sealed: array_at(bytes, 7 + SALT_LEN + NONCE_LEN),
        };
        assert(shard.encoding() =~= bytes@);
        proof {
            lemma_encoding_injective(
                shard,
                choose|s: Shard| #[trigger] s.encoding() == bytes@,
            );
        }
        Ok(shard)
    }

    /// Parse a shard from a file that was read.
    pub fn read(content: &Result<Vec<u8>, String>) -> (shard: Result<Shard, Error>)
        ensures
            crate::error::outcome(shard) == read_outcome(
                crate::files::content_outcome(*content),
            ),
            match content {
                Ok(bytes) => crate::error::outcome(shard) == decode_outcome(bytes@),
                Err(text) => shard is Err && shard->Err_0@ == ErrorView::Io(text@),
            },
    {
        match crate::files::contents(content) {
            Ok(bytes) => Shard::from_bytes(bytes.as_slice()),
            Err(e) => Err(e),
        }
    }

    /// Decrypts the share value. A wrong password (or tampered file) is
    /// rejected by the AES-GCM tag check, which is bound to this shard's
    /// (threshold, share count, id) via the associated data.
    pub fn decrypt(&self, password: &str) -> (value: Result<Vec<u8>, Error>)
        ensures
            crate::error::outcome(value) == self.decrypt_outcome(password@),
            value matches Ok(bytes) ==> bytes@.len() == SHARE_VALUE_LEN,
            match value {
                Ok(bytes) => vstd::utf8::encode_utf8(password@).len() <= 0xFFFF_FFFF
                    && crate::crypto::aes256gcm_open(
                    crate::crypto::argon2id(password@, self.salt@, 19456, 2, 1),
                    self.nonce@,
                    seq![self.threshold, self.share_count, self.id],
                    self.sealed@,
                ) == Some(bytes@),
                Err(e) => (e@ matches ErrorView::Decrypt { id, .. } && id == self.id) && (
                vstd::utf8::encode_utf8(password@).len() > 0xFFFF_FFFF
                    || crate::crypto::aes256gcm_open(
                    crate::crypto::argon2id(password@, self.salt@, 19456, 2, 1),
                    self.nonce@,
                    seq![self.threshold, self.share_count, self.id],
                    self.sealed@,
                ) is None),
            },
    {
        let aad = aad(self.threshold, self.share_count, self.id);
        match crate::crypto::open(&self.sealed, password, &self.salt, &self.nonce, &aad) {
            Ok(value) => Ok(value),
            Err(e) => Err(Error::Decrypt { id: self.id, reason: e.message() }),
        }
    }
}

/// The outcome of parsing bytes as a shard: the shard of which they are the
/// encoding, or what is wrong with them.
pub open spec fn decode_outcome(bytes: Seq<u8>) -> Result<Shard, ErrorView> {
    if bytes.len() != SHARD_LEN {
        Err(
            ErrorView::InvalidShardFile(
                "expected "@ + crate::text::decimal_text(SHARD_LEN as nat) + " bytes, got "@
                    + crate::text::decimal_text(bytes.len()),
            ),
        )
    } else if bytes.subrange(0, 3) != SHARD_MAGIC@ {
        Err(ErrorView::InvalidShardFile("bad magic bytes; not a horcrux shard"@))
    } else if bytes[3] != SHARD_VERSION {
        Err(
            ErrorView::InvalidShardFile(
                "unsupported version "@ + crate::text::decimal_text(bytes[3] as nat),
            ),
        )
    } else {
        Ok(choose|shard: Shard| #[trigger] shard.encoding() == bytes)
    }
}

/// The outcome of parsing what reading a file gave.
pub open spec fn read_outcome(content: Result<Seq<u8>, ErrorView>) -> Result<Shard, ErrorView> {
    match content {
        Ok(bytes) => decode_outcome(bytes),
        Err(error) => Err(error),
    }
}

/// The bytes of a shard parse as that shard.
pub proof fn shard_round_trip(shard: Shard)
    ensures
        decode_outcome(shard.encoding()) == Ok::<Shard, ErrorView>(shard),
{
    let bytes = shard.encoding();
    assert(bytes.subrange(0, 3) =~= SHARD_MAGIC@);
    lemma_encoding_parts(shard);
    lemma_encoding_injective(shard, choose|s: Shard| #[trigger] s.encoding() == bytes);
}

/// A shard is opened by AES-256-GCM under the Argon2id hash of the whole
/// password and the shard's salt, with the shard's nonce, and with its
/// threshold, share count and id as the associated data. What is not opened so
/// is a decryption failure that names the shard's id.
pub proof fn shard_opens_under_its_password_alone(shard: Shard, password: Seq<char>)
    requires
        vstd::utf8::encode_utf8(password).len() <= 0xFFFF_FFFF,
    ensures
        match crate::crypto::aes256gcm_open(
            crate::crypto::argon2id(password, shard.salt@, 19456, 2, 1),
            shard.nonce@,
            seq![shard.threshold, shard.share_count, shard.id],
            shard.sealed@,
        ) {
            Some(value) => shard.decrypt_outcome(password) == Ok::<Seq<u8>, ErrorView>(value),
            None => shard.decrypt_outcome(password) == Err::<Seq<u8>, ErrorView>(
                ErrorView::Decrypt {
                    id: shard.id,
                    reason: ErrorView::Aead("aead::Error"@).message(),
                },
            ),
        },
{
}

/// A password that Argon2 does not take, for its length, opens no shard.
pub proof fn overlong_password_opens_no_shard(shard: Shard, password: Seq<char>)
    requires
        vstd::utf8::encode_utf8(password).len() > 0xFFFF_FFFF,
    ensures
        shard.decrypt_outcome(password) == Err::<Seq<u8>, ErrorView>(
            ErrorView::Decrypt {
                id: shard.id,
                reason: ErrorView::Kdf("password is too long"@).message(),
            },
        ),
{
}

/// A shard file is 83 bytes long: `HX1`, version 1, the threshold, the share
/// count, the id, 16 bytes of salt, 12 of nonce and 48 of sealed share value.
pub proof fn shard_layout(shard: Shard)
    ensures
        shard.encoding() == seq![
            0x48u8,
            0x58u8,
            0x31u8,
            1u8,
            shard.threshold,
            shard.share_count,
            shard.id,
        ] + shard.salt@ + shard.nonce@ + shard.sealed@,
        shard.encoding().len() == 83,
{
    assert(shard.encoding() =~= seq![
        0x48u8,
        0x58u8,
        0x31u8,
        1u8,
        shard.threshold,
        shard.share_count,
        shard.id,
    ] + shard.salt@ + shard.nonce@ + shard.sealed@);
}

/// Bytes parse as a shard if and only if they are 83 bytes that begin with
/// `HX1` and version 1; the shard then has these bytes. Whatever does not parse
/// is no shard file.
pub proof fn shard_parses_iff_well_formed(bytes: Seq<u8>)
    ensures
        decode_outcome(bytes) is Ok <==> bytes.len() == 83 && bytes[0] == 0x48 && bytes[1] == 0x58
            && bytes[2] == 0x31 && bytes[3] == 1,
        decode_outcome(bytes) matches Ok(shard) ==> {
            &&& shard.encoding() == bytes
            &&& shard.threshold == bytes[4]
            &&& shard.share_count == bytes[5]
            &&& shard.id == bytes[6]
            &&& shard.salt@ == bytes.subrange(7, 23)
            &&& shard.nonce@ == bytes.subrange(23, 35)
            &&& shard.sealed@ == bytes.subrange(35, 83)
        },
        bytes.len() != 83 ==> decode_outcome(bytes) == Err::<Shard, ErrorView>(
            ErrorView::InvalidShardFile(
                "expected "@ + crate::text::decimal_text(83) + " bytes, got "@
                    + crate::text::decimal_text(bytes.len()),
            ),
        ),
        bytes.len() == 83 && !(bytes[0] == 0x48 && bytes[1] == 0x58 && bytes[2] == 0x31)
            ==> decode_outcome(bytes) == Err::<Shard, ErrorView>(
            ErrorView::InvalidShardFile("bad magic bytes; not a horcrux shard"@),
        ),
        bytes.len() == 83 && bytes[0] == 0x48 && bytes[1] == 0x58 && bytes[2] == 0x31 && bytes[3]
            != 1 ==> decode_outcome(bytes) == Err::<Shard, ErrorView>(
            ErrorView::InvalidShardFile(
                "unsupported version "@ + crate::text::decimal_text(bytes[3] as nat),
            ),
        ),
        decode_outcome(bytes) matches Err(error) ==> error is InvalidShardFile,
{
    let magic = bytes.subrange(0, 3);
    if bytes.len() == 83 {
        assert(magic[0] == bytes[0] && magic[1] == bytes[1] && magic[2] == bytes[2]);
        if magic[0] == 0x48 && magic[1] == 0x58 && magic[2] == 0x31 {
            assert(magic =~= SHARD_MAGIC@);
        }
    }
    if decode_outcome(bytes) is Ok {
        let shard = lemma_shard_of_bytes(bytes);
        lemma_encoding_injective(shard, choose|s: Shard| #[trigger] s.encoding() == bytes);
        lemma_encoding_parts(shard);
    }
}

/// The shard that has given bytes.
proof fn lemma_shard_of_bytes(bytes: Seq<u8>) -> (shard: Shard)
    requires
        bytes.len() == SHARD_LEN,
        bytes.subrange(0, 3) == SHARD_MAGIC@,
        bytes[3] == SHARD_VERSION,
    ensures
        shard.encoding() == bytes,
{
    let shard = Shard {
        threshold: bytes[4],
        share_count: bytes[5],
        id: bytes[6],
        salt: crate::bytes::array_of(bytes.subrange(7, 23)),
        nonce: crate::bytes::array_of(bytes.subrange(23, 35)),
        sealed: crate::bytes::array_of(bytes.subrange(35, 83)),
    };
    crate::bytes::lemma_array_of::<16>(bytes.subrange(7, 23));
    crate::bytes::lemma_array_of::<12>(bytes.subrange(23, 35));
    crate::bytes::lemma_array_of::<48>(bytes.subrange(35, 83));
    assert(shard.encoding() =~= bytes) by {
        assert(bytes =~= bytes.subrange(0, 3) + bytes.subrange(3, 7) + bytes.subrange(7, 23)
            + bytes.subrange(23, 35) + bytes.subrange(35, 83));
        assert(bytes.subrange(3, 7) =~= seq![
            SHARD_VERSION,
            shard.threshold,
            shard.share_count,
            shard.id,
        ]);
    }
    shard
}

/// Two shards with the same bytes are the same shard.
pub proof fn lemma_encoding_injective(a: Shard, b: Shard)
    requires
        a.encoding() == b.encoding(),
    ensures
        a == b,
{
    lemma_encoding_parts(a);
    lemma_encoding_parts(b);
    assert(a.salt =~= b.salt);
    assert(a.nonce =~= b.nonce);
    assert(a.sealed =~= b.sealed);
}

proof fn lemma_encoding_parts(shard: Shard)
    ensures
        shard.encoding().len() == SHARD_LEN,
        shard.encoding()[3] == SHARD_VERSION,
        shard.encoding()[4] == shard.threshold,
        shard.encoding()[5] == shard.share_count,
        shard.encoding()[6] == shard.id,
        shard.encoding().subrange(7, 23) == shard.salt@,
        shard.encoding().subrange(23, 35) == shard.nonce@,
        shard.encoding().subrange(35, 83) == shard.sealed@,
{
    let bytes = shard.encoding();
    assert(bytes.subrange(7, 23) =~= shard.salt@);
    assert(bytes.subrange(23, 35) =~= shard.nonce@);
    assert(bytes.subrange(35, 83) =~= shard.sealed@);
}

} // verus!
