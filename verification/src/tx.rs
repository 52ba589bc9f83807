//! Solana transactions, as far as signing needs them.
use vstd::prelude::*;

verus! {

/// A signed transaction.
#[derive(Debug)]
pub struct SignedTx {
    /// Sender address.
    pub from: [u8; 32],
    /// Ed25519 signature.
    pub signature: [u8; 64],
    /// Raw transaction encoding as a base58 string.
    pub raw_base58: String,
}

/// The address of an Ed25519 seed: its verifying key, which is the verifying
/// key of the FROST group into which the seed is split.
pub fn derive_address(seed: &[u8; 32]) -> (address: [u8; 32])
    ensures
        address@ == crate::mpc::seed_verifying_key(seed@),
        address@ == crate::frost::frost_public_key(crate::frost::ed25519_scalar(seed@)),
{
    crate::frost::dalek_verifying_key(seed)
}

} // verus!
