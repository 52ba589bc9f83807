//! Password-based sealing: an Argon2id key and AES-256-GCM.
use vstd::prelude::*;
use vstd::string::*;

use crate::error::{Error, ErrorView};
use crate::secret::Secret;
use crate::{ARGON2_M_COST, ARGON2_P_COST, ARGON2_T_COST, NONCE_LEN, SALT_LEN};

verus! {

/// The longest password that Argon2 takes, in bytes.
pub open spec fn max_password_len() -> nat {
    0xFFFF_FFFF
}

/// The longest plaintext that AES-GCM encrypts under one nonce with a 32-bit
/// block counter, in bytes.
pub open spec fn max_plaintext_len() -> nat {
    0xF_FFFF_FFE0
}

/// The longest associated data that AES-GCM takes, in bytes.
pub open spec fn max_aad_len() -> nat {
    0x10_0000_0000
}

/// Whether Argon2 takes the password.
pub open spec fn password_fits(password: Seq<char>) -> bool {
    vstd::utf8::encode_utf8(password).len() <= max_password_len()
}

/// Argon2 takes every password.
pub open spec fn all_passwords_fit(passwords: Seq<Seq<char>>) -> bool {
    forall|i: int| 0 <= i < passwords.len() ==> password_fits(#[trigger] passwords[i])
}

/// The 32-byte Argon2id (version 0x13) hash of the password's UTF-8 bytes.
pub uninterp spec fn argon2id(
    password: Seq<char>,
    salt: Seq<u8>,
    m_cost: u32,
    t_cost: u32,
    p_cost: u32,
) -> Seq<u8>;

/// `argon2::Argon2::hash_password_into` with Argon2id, version 0x13 and a
/// 32-byte output. It fails on a password of more than 2^32 - 1 bytes, and on
/// no other; the hash is named [`argon2id`].
#[verifier::external_body]
fn argon2id_hash(
    password: &str,
    salt: &[u8; SALT_LEN],
    m_cost: u32,
    t_cost: u32,
    p_cost: u32,
) -> (hash: Result<[u8; 32], String>)
    requires
        8 <= 8 * p_cost <= m_cost,
        p_cost <= 0xFF_FFFF,
        1 <= t_cost,
    ensures
        password_fits(password@) ==> hash is Ok && hash->Ok_0@ == argon2id(
            password@,
            salt@,
            m_cost,
            t_cost,
            p_cost,
        ),
        !password_fits(password@) ==> hash is Err && hash->Err_0@ == "password is too long"@,
{
    let mut out = [0u8; 32];
    argon2::Params::new(m_cost, t_cost, p_cost, Some(32))
        .and_then(|params| {
            argon2::Argon2::new(argon2::Algorithm::Argon2id, argon2::Version::V0x13, params)
                .hash_password_into(password.as_bytes(), salt, &mut out)
        })
        .map(|_| out)
        .map_err(|e| e.to_string())
}

/// The AES-256-GCM encryption of a plaintext: ciphertext, then tag.
pub uninterp spec fn aes256gcm_seal(
    key: Seq<u8>,
    nonce: Seq<u8>,
    aad: Seq<u8>,
    plaintext: Seq<u8>,
) -> Seq<u8>;

/// The AES-256-GCM decryption, where the tag authenticates the ciphertext.
pub uninterp spec fn aes256gcm_open(
    key: Seq<u8>,
    nonce: Seq<u8>,
    aad: Seq<u8>,
    sealed: Seq<u8>,
) -> Option<Seq<u8>>;

/// `aes_gcm::Aes256Gcm::encrypt`. It fails on associated data of more than
/// 2^36 bytes, and on no other. The result is named [`aes256gcm_seal`]; it is
/// 16 bytes longer than the plaintext, and decryption under the same key,
/// nonce and associated data gives the plaintext back.
#[verifier::external_body]
fn aes256gcm_encrypt(
    key: &[u8; 32],
    nonce: &[u8; NONCE_LEN],
    plaintext: &[u8],
    aad: &[u8],
) -> (sealed: Result<Vec<u8>, String>)
    requires
        plaintext@.len() <= max_plaintext_len(),
    ensures
        aad@.len() <= max_aad_len() ==> {
            &&& sealed is Ok
            &&& sealed->Ok_0@ == aes256gcm_seal(key@, nonce@, aad@, plaintext@)
            &&& sealed->Ok_0@.len() == plaintext@.len() + 16
            &&& aes256gcm_open(key@, nonce@, aad@, sealed->Ok_0@) == Some(plaintext@)
        },
        aad@.len() > max_aad_len() ==> sealed is Err && sealed->Err_0@ == "aead::Error"@,
{
    aes_gcm::aead::Aead::encrypt(
        &<aes_gcm::Aes256Gcm as aes_gcm::KeyInit>::new(key.into()),
        nonce.into(),
        aes_gcm::aead::Payload { msg: plaintext, aad },
    ).map_err(|e| e.to_string())
}

/// `aes_gcm::Aes256Gcm::decrypt`. The outcome is named [`aes256gcm_open`]; a
/// plaintext that comes out is 16 bytes shorter than what went in.
#[verifier::external_body]
fn aes256gcm_decrypt(
    key: &[u8; 32],
    nonce: &[u8; NONCE_LEN],
    sealed: &[u8],
    aad: &[u8],
) -> (plaintext: Result<Vec<u8>, String>)
    ensures
        match aes256gcm_open(key@, nonce@, aad@, sealed@) {
            Some(opened) => plaintext is Ok && plaintext->Ok_0@ == opened && sealed@.len()
                == opened.len() + 16,
            None => plaintext is Err && plaintext->Err_0@ == "aead::Error"@,
        },
{
    aes_gcm::aead::Aead::decrypt(
        &<aes_gcm::Aes256Gcm as aes_gcm::KeyInit>::new(key.into()),
        nonce.into(),
        aes_gcm::aead::Payload { msg: sealed, aad },
    ).map_err(|e| e.to_string())
}

/// `rand::random`, for 16 bytes. Nothing is claimed of the bytes.
#[verifier::external_body]
pub(crate) fn random_16() -> [u8; 16] {
    rand::random()
}

/// The 16 bytes are random: they are what the random source gave.
pub closed spec fn is_random(bytes: [u8; 16]) -> bool {
    call_ensures(random_16, (), bytes)
}

/// Bytes are random only if the random source gave them.
proof fn random_bytes_come_from_the_source(bytes: [u8; 16])
    ensures
        is_random(bytes) <==> call_ensures(random_16, (), bytes),
{
}

/// The 12 bytes are random: they are the first that the random source gave.
pub open spec fn is_random_nonce(nonce: [u8; NONCE_LEN]) -> bool {
    exists|bytes: [u8; 16]| #[trigger] is_random(bytes) && nonce@ == bytes@.subrange(0, 12)
}

/// A fresh session: 16 random bytes.
pub(crate) fn random_session() -> (session: [u8; 16])
    ensures
        is_random(session),
{
    random_16()
}

/// A fresh Argon2id salt.
pub fn random_salt() -> (salt: [u8; SALT_LEN])
    ensures
        is_random(salt),
{
    random_16()
}

/// A fresh AES-256-GCM nonce.
pub fn random_nonce() -> (nonce: [u8; NONCE_LEN])
    ensures
        exists|bytes: [u8; 16]| #[trigger] is_random(bytes) && nonce@ == bytes@.subrange(0, 12),
{
    let bytes = random_16();
    assert(is_random(bytes));
    crate::bytes::array_at(&bytes, 0)
}

/// The encryption key for a password and a salt.
pub open spec fn password_key(password: Seq<char>, salt: Seq<u8>) -> Seq<u8> {
    argon2id(password, salt, ARGON2_M_COST, ARGON2_T_COST, ARGON2_P_COST)
}

/// Derives the encryption key for a password and a salt.
pub fn derive_key(password: &str, salt: &[u8; SALT_LEN]) -> (key: Result<[u8; 32], Error>)
    ensures
        password_fits(password@) ==> key is Ok && key->Ok_0@ == password_key(password@, salt@),
        !password_fits(password@) ==> key is Err && key->Err_0@ == ErrorView::Kdf(
            "password is too long"@,
        ),
        key is Ok <==> vstd::utf8::encode_utf8(password@).len() <= 0xFFFF_FFFF,
        key matches Ok(k) ==> k@ == argon2id(password@, salt@, 19456, 2, 1),
{
    match argon2id_hash(password, salt, ARGON2_M_COST, ARGON2_T_COST, ARGON2_P_COST) {
        Ok(key) => Ok(key),
        Err(e) => Err(Error::Kdf(e)),
    }
}

/// The encryption key is the Argon2id hash of the whole password, in 19456 KiB
/// of memory, two passes and one lane. What is sealed under it is opened by
/// AES-256-GCM under that hash of the password and the salt, and whatever that
/// does not open is not opened.
pub proof fn whole_password_opens(
    sealed: Seq<u8>,
    password: Seq<char>,
    salt: Seq<u8>,
    nonce: Seq<u8>,
    aad: Seq<u8>,
)
    requires
        vstd::utf8::encode_utf8(password).len() <= 0xFFFF_FFFF,
    ensures
        password_key(password, salt) == argon2id(password, salt, 19456, 2, 1),
        open_outcome(sealed, password, salt, nonce, aad) == (match aes256gcm_open(
            argon2id(password, salt, 19456, 2, 1),
            nonce,
            aad,
            sealed,
        ) {
            Some(plaintext) => Ok::<Seq<u8>, ErrorView>(plaintext),
            None => Err(ErrorView::Aead("aead::Error"@)),
        }),
{
}

/// Two passwords under which one of two sealed texts opens and the other does
/// not have different hashes under its salt.
pub proof fn passwords_are_told_apart_by_their_hash(
    sealed: Seq<u8>,
    password: Seq<char>,
    other: Seq<char>,
    salt: Seq<u8>,
    nonce: Seq<u8>,
    aad: Seq<u8>,
)
    requires
        open_outcome(sealed, password, salt, nonce, aad) is Ok,
        open_outcome(sealed, other, salt, nonce, aad) matches Err(ErrorView::Aead(_)),
    ensures
        argon2id(password, salt, 19456, 2, 1) != argon2id(other, salt, 19456, 2, 1),
{
}

/// The outcome of sealing a plaintext under a password.
pub open spec fn seal_outcome(
    plaintext: Seq<u8>,
    password: Seq<char>,
    salt: Seq<u8>,
    nonce: Seq<u8>,
    aad: Seq<u8>,
) -> Result<Seq<u8>, ErrorView> {
    if !password_fits(password) {
        Err(ErrorView::Kdf("password is too long"@))
    } else if aad.len() > max_aad_len() {
        Err(ErrorView::Aead("aead::Error"@))
    } else {
        Ok(aes256gcm_seal(password_key(password, salt), nonce, aad, plaintext))
    }
}

/// The outcome of opening what was sealed under a password.
pub open spec fn open_outcome(
    sealed: Seq<u8>,
    password: Seq<char>,
    salt: Seq<u8>,
    nonce: Seq<u8>,
    aad: Seq<u8>,
) -> Result<Seq<u8>, ErrorView> {
    if !password_fits(password) {
        Err(ErrorView::Kdf("password is too long"@))
    } else {
        match aes256gcm_open(password_key(password, salt), nonce, aad, sealed) {
            Some(plaintext) => Ok(plaintext),
            None => Err(ErrorView::Aead("aead::Error"@)),
        }
    }
}

/// Encrypts a plaintext under a password, with a 16-byte authentication tag
/// appended. Opening the result under the same password, salt, nonce and
/// associated data gives the plaintext back.
pub fn seal(
    plaintext: &[u8],
    password: &str,
    salt: &[u8; SALT_LEN],
    nonce: &[u8; NONCE_LEN],
    aad: &[u8],
) -> (sealed: Result<Vec<u8>, Error>)
    requires
        plaintext@.len() <= max_plaintext_len(),
    ensures
        crate::error::outcome(sealed) == seal_outcome(plaintext@, password@, salt@, nonce@, aad@),
        sealed matches Ok(bytes) ==> bytes@.len() == plaintext@.len() + 16 && open_outcome(
            bytes@,
            password@,
            salt@,
            nonce@,
            aad@,
        ) == Ok::<Seq<u8>, ErrorView>(plaintext@),
        sealed is Ok <==> vstd::utf8::encode_utf8(password@).len() <= 0xFFFF_FFFF && aad@.len()
            <= 0x10_0000_0000,
        sealed matches Ok(bytes) ==> bytes@ == aes256gcm_seal(
            argon2id(password@, salt@, 19456, 2, 1),
            nonce@,
            aad@,
            plaintext@,
        ) && aes256gcm_open(argon2id(password@, salt@, 19456, 2, 1), nonce@, aad@, bytes@) == Some(
            plaintext@,
        ),
{
    let key = match derive_key(password, salt) {
        Ok(key) => Secret { bytes: key },
        Err(e) => return Err(e),
    };
    match aes256gcm_encrypt(&key.bytes, nonce, plaintext, aad) {
        Ok(sealed) => Ok(sealed),
        Err(e) => Err(Error::Aead(e)),
    }
}

/// Decrypts what [`seal`] made. A wrong password, or any change to the bytes,
/// the salt, the nonce or the associated data, shows in the tag.
pub fn open(
    sealed: &[u8],
    password: &str,
    salt: &[u8; SALT_LEN],
    nonce: &[u8; NONCE_LEN],
    aad: &[u8],
) -> (plaintext: Result<Vec<u8>, Error>)
    ensures
        crate::error::outcome(plaintext) == open_outcome(
            sealed@,
            password@,
            salt@,
            nonce@,
            aad@,
        ),
        plaintext matches Ok(bytes) ==> sealed@.len() == bytes@.len() + 16,
        match plaintext {
            Ok(bytes) => vstd::utf8::encode_utf8(password@).len() <= 0xFFFF_FFFF && aes256gcm_open(
                argon2id(password@, salt@, 19456, 2, 1),
                nonce@,
                aad@,
                sealed@,
            ) == Some(bytes@),
            Err(e) => (vstd::utf8::encode_utf8(password@).len() > 0xFFFF_FFFF && e@
                == ErrorView::Kdf("password is too long"@)) || (vstd::utf8::encode_utf8(
                password@,
            ).len() <= 0xFFFF_FFFF && aes256gcm_open(
                argon2id(password@, salt@, 19456, 2, 1),
                nonce@,
                aad@,
                sealed@,
            ) is None && e@ == ErrorView::Aead("aead::Error"@)),
        },
{
    let key = match derive_key(password, salt) {
        Ok(key) => Secret { bytes: key },
        Err(e) => return Err(e),
    };
    match aes256gcm_decrypt(&key.bytes, nonce, sealed, aad) {
        Ok(plaintext) => Ok(plaintext),
        Err(e) => Err(Error::Aead(e)),
    }
}

} // verus!
