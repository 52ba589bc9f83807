//! The secret that is split: a nonzero secp256k1 scalar, whose bytes are the
//! Ed25519 seed.
use vstd::prelude::*;
use vstd::string::*;

use crate::error::{Error, ErrorView};
use crate::secret::Secret;

verus! {

/// Whether 32 bytes are a private key: a nonzero scalar, big-endian.
pub open spec fn valid_key(bytes: Seq<u8>) -> bool {
    bytes.len() == 32 && 0 < crate::bytes::be_value(bytes) < crate::field::order()
}

/// A private key. Every value of this type is a nonzero scalar. The bytes are
/// overwritten when it is dropped.
pub struct SecretKey {
    secret: Secret<32>,
}

impl View for SecretKey {
    type V = Seq<u8>;

    closed spec fn view(&self) -> Seq<u8> {
        self.secret@
    }
}

/// `k256::SecretKey::from_bytes`: it takes the big-endian bytes of a nonzero
/// scalar, and fails on all others. `k256::SecretKey::to_bytes` gives the same
/// bytes back.
#[verifier::external_body]
fn k256_key(bytes: &[u8; 32]) -> (key: Result<[u8; 32], String>)
    ensures
        valid_key(bytes@) ==> key is Ok && key->Ok_0@ == bytes@,
        !valid_key(bytes@) ==> key is Err && key->Err_0@ == "crypto error"@,
{
    k256::SecretKey::from_bytes(&(*bytes).into())
        .map(|key| key.to_bytes().into())
        .map_err(|e| e.to_string())
}

/// A private key is 32 bytes that hold a number from 1 up to, not including, the
/// order of the secp256k1 group, big-endian.
pub proof fn keys_are_nonzero_scalars(bytes: Seq<u8>)
    ensures
        valid_key(bytes) <==> bytes.len() == 32 && 1 <= crate::bytes::be_value(bytes)
            < 115792089237316195423570985008687907852837564279074904382605163141518161494337int,
{
}

impl SecretKey {
    #[verifier::type_invariant]
    spec fn inv(self) -> bool {
        valid_key(self.secret@)
    }

    /// Reads a private key from its big-endian bytes.
    pub fn from_bytes(bytes: &[u8; 32]) -> (key: Result<SecretKey, Error>)
        ensures
            crate::error::outcome(key) == (if valid_key(bytes@) {
                Ok::<Seq<u8>, ErrorView>(bytes@)
            } else {
                Err(ErrorView::InvalidKey("crypto error"@))
            }),
            key is Ok <==> 1 <= crate::bytes::be_value(bytes@)
                < 115792089237316195423570985008687907852837564279074904382605163141518161494337int,
            key matches Ok(k) ==> k@ == bytes@,
    {
        match k256_key(bytes) {
            Ok(bytes) => Ok(SecretKey { secret: Secret { bytes } }),
            Err(e) => Err(Error::InvalidKey(e)),
        }
    }

    /// The key's big-endian bytes.
    pub fn to_bytes(&self) -> (bytes: [u8; 32])
        ensures
            bytes@ == self@,
            valid_key(bytes@),
    {
        proof {
            use_type_invariant(&*self);
        }
        self.secret.bytes
    }
}

} // verus!
