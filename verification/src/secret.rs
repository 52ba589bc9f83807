//! Secret bytes, which are overwritten when they are dropped.
use vstd::prelude::*;

verus! {

/// `zeroize::Zeroize::zeroize` on a vector of bytes: it overwrites them and
/// leaves the vector empty. That the memory was overwritten is not stated.
#[verifier::external_body]
pub(crate) fn wipe(bytes: &mut Vec<u8>)
    ensures
        final(bytes)@.len() == 0,
    opens_invariants none
    no_unwind
{
    zeroize::Zeroize::zeroize(bytes)
}

/// `zeroize::Zeroize::zeroize` on an array of bytes: it overwrites them with
/// zeros.
#[verifier::external_body]
pub(crate) fn wipe_array<const N: usize>(bytes: &mut [u8; N])
    ensures
        forall|i: int| 0 <= i < N ==> final(bytes)@[i] == 0,
    opens_invariants none
    no_unwind
{
    zeroize::Zeroize::zeroize(bytes)
}

/// An array of secret bytes.
pub struct Secret<const N: usize> {
    /// The bytes.
    pub bytes: [u8; N],
}

impl<const N: usize> View for Secret<N> {
    type V = Seq<u8>;

    open spec fn view(&self) -> Seq<u8> {
        self.bytes@
    }
}

impl<const N: usize> Drop for Secret<N> {
    /// Overwrites the bytes.
    fn drop(&mut self)
        ensures
            forall|i: int| 0 <= i < N ==> final(self).bytes@[i] == 0,
        opens_invariants none
        no_unwind
    {
        wipe_array(&mut self.bytes);
    }
}

/// A vector of secret bytes.
pub struct SecretVec {
    /// The bytes.
    pub bytes: Vec<u8>,
}

impl View for SecretVec {
    type V = Seq<u8>;

    open spec fn view(&self) -> Seq<u8> {
        self.bytes@
    }
}

impl Drop for SecretVec {
    /// Overwrites the bytes.
    fn drop(&mut self)
        ensures
            final(self).bytes@.len() == 0,
        opens_invariants none
        no_unwind
    {
        wipe(&mut self.bytes);
    }
}

} // verus!
