//! The errors of the library and their messages.
use vstd::prelude::*;
use vstd::string::*;

use crate::text::decimal;

verus! {

/// Errors that can occur while splitting, encrypting, decrypting, or
/// reconstructing shards.
#[derive(Debug)]
pub enum Error {
    /// The private key bytes do not form a valid secp256k1 scalar.
    InvalidKey(String),
    /// Invalid threshold/share-count combination.
    InvalidParams(String),
    /// Not enough valid shards to reconstruct the key: how many are needed,
    /// how many were provided.
    NotEnoughShares(usize, usize),
    /// Decryption failed; typically a wrong password or tampered file.
    Decrypt { id: u8, reason: String },
    /// Password-based key derivation failed.
    Kdf(String),
    /// Authenticated encryption failed.
    Aead(String),
    /// The shard file is not a valid horcrux shard.
    InvalidShardFile(String),
    /// Two shards from different splits were mixed together.
    SplitMismatch { path: String, t: u8, n: u8 },
    /// A FROST share from a different group was mixed into the signing set.
    MpcGroupMismatch { path: String },
    /// A FROST (Mode B) operation failed.
    Mpc(String),
    /// An HX3 (air-gapped QR transport) frame was malformed or corrupt.
    Hx3(String),
    /// A QR code image could not be encoded or decoded.
    Qr(String),
    /// The underlying secret-sharing library failed.
    Vsss(String),
    /// I/O error while reading or writing a shard file.
    Io(String),
    /// Failed to build, sign, or broadcast a Solana transaction.
    Tx(String),
    /// Failed to build or sign a Bitcoin (Taproot) transaction.
    Bitcoin(String),
    /// Failed to build or sign a Cosmos SDK transaction.
    Cosmos(String),
    /// The audit layer refused the attempt before any key material was used.
    Blocked(String),
    /// The access log could not be read or written.
    Audit(String),
}

/// An [`Error`] as a mathematical value: texts are sequences of characters.
#[verifier::ext_equal]
pub ghost enum ErrorView {
    InvalidKey(Seq<char>),
    InvalidParams(Seq<char>),
    NotEnoughShares(nat, nat),
    Decrypt { id: u8, reason: Seq<char> },
    Kdf(Seq<char>),
    Aead(Seq<char>),
    InvalidShardFile(Seq<char>),
    SplitMismatch { path: Seq<char>, t: u8, n: u8 },
    MpcGroupMismatch { path: Seq<char> },
    Mpc(Seq<char>),
    Hx3(Seq<char>),
    Qr(Seq<char>),
    Vsss(Seq<char>),
    Io(Seq<char>),
    Tx(Seq<char>),
    Bitcoin(Seq<char>),
    Cosmos(Seq<char>),
    Blocked(Seq<char>),
    Audit(Seq<char>),
}

impl View for Error {
    type V = ErrorView;

    open spec fn view(&self) -> ErrorView {
        match self {
            Error::InvalidKey(m) => ErrorView::InvalidKey(m@),
            Error::InvalidParams(m) => ErrorView::InvalidParams(m@),
            Error::NotEnoughShares(need, got) => ErrorView::NotEnoughShares(
                *need as nat,
                *got as nat,
            ),
            Error::Decrypt { id, reason } => ErrorView::Decrypt { id: *id, reason: reason@ },
            Error::Kdf(m) => ErrorView::Kdf(m@),
            Error::Aead(m) => ErrorView::Aead(m@),
            Error::InvalidShardFile(m) => ErrorView::InvalidShardFile(m@),
            Error::SplitMismatch { path, t, n } => ErrorView::SplitMismatch {
                path: path@,
                t: *t,
                n: *n,
            },
            Error::MpcGroupMismatch { path } => ErrorView::MpcGroupMismatch { path: path@ },
            Error::Mpc(m) => ErrorView::Mpc(m@),
            Error::Hx3(m) => ErrorView::Hx3(m@),
            Error::Qr(m) => ErrorView::Qr(m@),
            Error::Vsss(m) => ErrorView::Vsss(m@),
            Error::Io(m) => ErrorView::Io(m@),
            Error::Tx(m) => ErrorView::Tx(m@),
            Error::Bitcoin(m) => ErrorView::Bitcoin(m@),
            Error::Cosmos(m) => ErrorView::Cosmos(m@),
            Error::Blocked(m) => ErrorView::Blocked(m@),
            Error::Audit(m) => ErrorView::Audit(m@),
        }
    }
}

/// What a fallible computation came to, as a mathematical value.
pub open spec fn outcome<T: View>(result: Result<T, Error>) -> Result<T::V, ErrorView> {
    match result {
        Ok(value) => Ok(value@),
        Err(error) => Err(error@),
    }
}

/// An error is seen as the same error, with the same text, numbers and path; what
/// a computation came to is seen as its value or its error.
pub proof fn errors_are_seen_whole<T: View>(error: Error, value: T, text: String)
    ensures
        match error {
            Error::InvalidKey(m) => error@ == ErrorView::InvalidKey(m@),
            Error::InvalidParams(m) => error@ == ErrorView::InvalidParams(m@),
            Error::Kdf(m) => error@ == ErrorView::Kdf(m@),
            Error::Aead(m) => error@ == ErrorView::Aead(m@),
            Error::InvalidShardFile(m) => error@ == ErrorView::InvalidShardFile(m@),
            Error::Mpc(m) => error@ == ErrorView::Mpc(m@),
            Error::Hx3(m) => error@ == ErrorView::Hx3(m@),
            Error::Qr(m) => error@ == ErrorView::Qr(m@),
            Error::Vsss(m) => error@ == ErrorView::Vsss(m@),
            Error::Io(m) => error@ == ErrorView::Io(m@),
            Error::Tx(m) => error@ == ErrorView::Tx(m@),
            Error::Bitcoin(m) => error@ == ErrorView::Bitcoin(m@),
            Error::Cosmos(m) => error@ == ErrorView::Cosmos(m@),
            Error::Blocked(m) => error@ == ErrorView::Blocked(m@),
            Error::Audit(m) => error@ == ErrorView::Audit(m@),
            Error::NotEnoughShares(need, got) => error@ == ErrorView::NotEnoughShares(
                need as nat,
                got as nat,
            ),
            Error::Decrypt { id, reason } => error@ == (ErrorView::Decrypt { id, reason: reason@ }),
            Error::SplitMismatch { path, t, n } => error@ == (ErrorView::SplitMismatch {
                path: path@,
                t,
                n,
            }),
            Error::MpcGroupMismatch { path } => error@ == (ErrorView::MpcGroupMismatch {
                path: path@,
            }),
        },
        outcome(Ok::<T, Error>(value)) == Ok::<T::V, ErrorView>(value@),
        outcome(Err::<T, Error>(error)) == Err::<T::V, ErrorView>(error@),
        text_outcome(Ok::<T, String>(value)) == Ok::<T::V, Seq<char>>(value@),
        text_outcome(Err::<T, String>(text)) == Err::<T::V, Seq<char>>(text@),
{
}

/// What a call that reports its failure as a text came to.
pub open spec fn text_outcome<T: View>(result: Result<T, String>) -> Result<T::V, Seq<char>> {
    match result {
        Ok(value) => Ok(value@),
        Err(text) => Err(text@),
    }
}

/// The `Debug` form of a string: in double quotes, with special characters
/// escaped.
pub uninterp spec fn debug_text(text: Seq<char>) -> Seq<char>;

/// `<str as Debug>::fmt`, through `format!`. The result depends on the string
/// alone and is named [`debug_text`]; nothing more is claimed of it.
#[verifier::external_body]
fn debug_str(text: &str) -> (quoted: String)
    ensures
        quoted@ == debug_text(text@),
{
    format!("{:?}", text)
}

impl ErrorView {
    /// The message of an error.
    pub open spec fn message(self) -> Seq<char> {
        match self {
            ErrorView::InvalidKey(m) => "invalid private key: "@ + m,
            ErrorView::InvalidParams(m) => "invalid secret-sharing parameters: "@ + m,
            ErrorView::NotEnoughShares(need, got) => "need "@ + crate::text::decimal_text(need)
                + " shards but only "@ + crate::text::decimal_text(got) + " were provided"@,
            ErrorView::Decrypt { id, reason } => "failed to decrypt shard "@
                + crate::text::decimal_text(id as nat) + ": "@ + reason,
            ErrorView::Kdf(m) => "key derivation failed: "@ + m,
            ErrorView::Aead(m) => "authenticated encryption failed: "@ + m,
            ErrorView::InvalidShardFile(m) => "invalid shard file: "@ + m,
            ErrorView::SplitMismatch { path, t, n } => "shard "@ + debug_text(path)
                + " has different split parameters (t="@ + crate::text::decimal_text(t as nat)
                + ", n="@ + crate::text::decimal_text(n as nat) + ")"@,
            ErrorView::MpcGroupMismatch { path } => "share "@ + debug_text(path)
                + " belongs to a different FROST group"@,
            ErrorView::Mpc(m) => "mpc error: "@ + m,
            ErrorView::Hx3(m) => "hx3 frame error: "@ + m,
            ErrorView::Qr(m) => "qr transport error: "@ + m,
            ErrorView::Vsss(m) => "secret-sharing error: "@ + m,
            ErrorView::Io(m) => "I/O error: "@ + m,
            ErrorView::Tx(m) => "transaction error: "@ + m,
            ErrorView::Bitcoin(m) => "bitcoin error: "@ + m,
            ErrorView::Cosmos(m) => "cosmos error: "@ + m,
            ErrorView::Blocked(m) => "access audit blocked the attempt: "@ + m,
            ErrorView::Audit(m) => "audit log error: "@ + m,
        }
    }
}

/// Every text that an error carries stands whole at the end of its message,
/// behind the words that name the error; numbers and paths stand where the
/// message speaks of them.
pub proof fn messages_carry_what_the_errors_hold(
    text: Seq<char>,
    path: Seq<char>,
    a: nat,
    b: nat,
    t: u8,
    n: u8,
)
    ensures
        ErrorView::InvalidKey(text).message() == "invalid private key: "@ + text,
        ErrorView::InvalidParams(text).message() == "invalid secret-sharing parameters: "@ + text,
        ErrorView::Kdf(text).message() == "key derivation failed: "@ + text,
        ErrorView::Aead(text).message() == "authenticated encryption failed: "@ + text,
        ErrorView::InvalidShardFile(text).message() == "invalid shard file: "@ + text,
        ErrorView::Mpc(text).message() == "mpc error: "@ + text,
        ErrorView::Hx3(text).message() == "hx3 frame error: "@ + text,
        ErrorView::Qr(text).message() == "qr transport error: "@ + text,
        ErrorView::Vsss(text).message() == "secret-sharing error: "@ + text,
        ErrorView::Io(text).message() == "I/O error: "@ + text,
        ErrorView::Tx(text).message() == "transaction error: "@ + text,
        ErrorView::Bitcoin(text).message() == "bitcoin error: "@ + text,
        ErrorView::Cosmos(text).message() == "cosmos error: "@ + text,
        ErrorView::Blocked(text).message() == "access audit blocked the attempt: "@ + text,
        ErrorView::Audit(text).message() == "audit log error: "@ + text,
        ErrorView::NotEnoughShares(a, b).message() == "need "@ + crate::text::decimal_text(a)
            + " shards but only "@ + crate::text::decimal_text(b) + " were provided"@,
        (ErrorView::Decrypt { id: t, reason: text }).message() == "failed to decrypt shard "@
            + crate::text::decimal_text(t as nat) + ": "@ + text,
        (ErrorView::SplitMismatch { path, t, n }).message() == "shard "@ + debug_text(path)
            + " has different split parameters (t="@ + crate::text::decimal_text(t as nat)
            + ", n="@ + crate::text::decimal_text(n as nat) + ")"@,
        (ErrorView::MpcGroupMismatch { path }).message() == "share "@ + debug_text(path)
            + " belongs to a different FROST group"@,
{
}

impl Error {
    /// The error's message, for display.
    pub fn message(&self) -> (text: String)
        ensures
            text@ == self@.message(),
    {
        match self {
            Error::InvalidKey(m) => "invalid private key: ".to_owned().concat(m.as_str()),
            Error::InvalidParams(m) => "invalid secret-sharing parameters: ".to_owned().concat(
                m.as_str(),
            ),
            Error::NotEnoughShares(need, got) => "need ".to_owned().concat(
                decimal(*need).as_str(),
            ).concat(" shards but only ").concat(decimal(*got).as_str()).concat(" were provided"),
            Error::Decrypt { id, reason } => "failed to decrypt shard ".to_owned().concat(
                decimal(*id as usize).as_str(),
            ).concat(": ").concat(reason.as_str()),
            Error::Kdf(m) => "key derivation failed: ".to_owned().concat(m.as_str()),
            Error::Aead(m) => "authenticated encryption failed: ".to_owned().concat(m.as_str()),
            Error::InvalidShardFile(m) => "invalid shard file: ".to_owned().concat(m.as_str()),
            Error::SplitMismatch { path, t, n } => "shard ".to_owned().concat(
                debug_str(path.as_str()).as_str(),
            ).concat(" has different split parameters (t=").concat(
                decimal(*t as usize).as_str(),
            ).concat(", n=").concat(decimal(*n as usize).as_str()).concat(")"),
            Error::MpcGroupMismatch { path } => "share ".to_owned().concat(
                debug_str(path.as_str()).as_str(),
            ).concat(" belongs to a different FROST group"),
            Error::Mpc(m) => "mpc error: ".to_owned().concat(m.as_str()),
            Error::Hx3(m) => "hx3 frame error: ".to_owned().concat(m.as_str()),
            Error::Qr(m) => "qr transport error: ".to_owned().concat(m.as_str()),
            Error::Vsss(m) => "secret-sharing error: ".to_owned().concat(m.as_str()),
            Error::Io(m) => "I/O error: ".to_owned().concat(m.as_str()),
            Error::Tx(m) => "transaction error: ".to_owned().concat(m.as_str()),
            Error::Bitcoin(m) => "bitcoin error: ".to_owned().concat(m.as_str()),
            Error::Cosmos(m) => "cosmos error: ".to_owned().concat(m.as_str()),
            Error::Blocked(m) => "access audit blocked the attempt: ".to_owned().concat(
                m.as_str(),
            ),
            Error::Audit(m) => "audit log error: ".to_owned().concat(m.as_str()),
        }
    }
}

} // verus!
