//! horcrux — split an Ed25519 signing seed via Shamir's Secret Sharing (over the
//! secp256k1 field), encrypt the shares with per-shard guardian passwords
//! (Argon2id + AES-256-GCM), reconstruct the seed from any threshold subset of
//! shard files, and sign with it (Mode A). Mode B adds FROST threshold
//! signatures ([`mpc`]): the same seed is dealer-split into key shares so
//! signing never reconstructs the key on any machine.

pub mod audit;
pub mod bytes;
pub mod crypto;
pub mod error;
pub mod field;
pub mod files;
pub mod frost;
pub mod idmap;
pub mod key;
pub mod mpc;
pub mod qr_mpc;
pub mod secret;
pub mod shard;
pub mod sss;
pub mod steps;
pub mod text;
pub mod tx;

use vstd::prelude::*;
use vstd::string::*;

use crate::error::{Error, ErrorView};
use crate::files::{StoredFile, StoredFileView};
use crate::key::SecretKey;
use crate::secret::{Secret, SecretVec};
use crate::shard::Shard;
use crate::steps::Step;
use crate::text::decimal;

verus! {

/// File magic of shard files, `HX1`.
pub const SHARD_MAGIC: [u8; 3] = [0x48, 0x58, 0x31];

/// Shard file format version.
pub const SHARD_VERSION: u8 = 1;

/// KDF memory cost in KiB (Argon2id, OWASP interactive-class defaults).
pub const ARGON2_M_COST: u32 = 19 * 1024;

/// KDF time cost.
pub const ARGON2_T_COST: u32 = 2;

/// KDF parallelism.
pub const ARGON2_P_COST: u32 = 1;

/// Length of the per-shard Argon2id salt, in bytes.
pub const SALT_LEN: usize = 16;

/// Length of the AES-256-GCM nonce, in bytes.
pub const NONCE_LEN: usize = 12;

/// Length of the AES-256-GCM authentication tag, in bytes.
pub const TAG_LEN: usize = 16;

/// Length of a share value, in bytes (a secp256k1 scalar).
pub const SHARE_VALUE_LEN: usize = 32;

/// A shard and the name of its file.
pub struct NamedShard {
    /// File name, `shard-{id}.hx`.
    pub file_name: String,
    /// The shard.
    pub shard: Shard,
}

/// Shard number `i + 1` of a split: it is named after its number, carries the
/// split's parameters, and its password opens the 32 bytes of the number `y`.
pub open spec fn holds_share(
    named: NamedShard,
    i: int,
    threshold: u8,
    share_count: u8,
    password: Seq<char>,
    y: int,
) -> bool {
    &&& named.file_name@ == "shard-"@ + crate::text::decimal_text((i + 1) as nat) + ".hx"@
    &&& named.shard.threshold == threshold
    &&& named.shard.share_count == share_count
    &&& named.shard.id == i + 1
    &&& named.shard.decrypt_outcome(password) matches Ok(value) && value.len() == SHARE_VALUE_LEN
        && crate::bytes::be_value(value) == y
}

/// The shards hold, each under its own password, the shares of a key on the
/// sharing polynomial `coeffs`.
pub open spec fn shards_of(
    shards: Seq<NamedShard>,
    key: Seq<u8>,
    threshold: u8,
    share_count: u8,
    passwords: Seq<Seq<char>>,
    coeffs: Seq<int>,
) -> bool {
    &&& shards.len() == share_count
    &&& coeffs.len() == threshold
    &&& coeffs[0] == crate::bytes::be_value(key)
    &&& forall|i: int|
        0 <= i < shards.len() ==> holds_share(
            #[trigger] shards[i],
            i,
            threshold,
            share_count,
            passwords[i],
            crate::field::eval(coeffs, i + 1) % crate::field::order(),
        )
}

/// The shards hold, each under its own password, the shares of a key.
pub open spec fn is_split(
    shards: Seq<NamedShard>,
    key: Seq<u8>,
    threshold: u8,
    share_count: u8,
    passwords: Seq<Seq<char>>,
) -> bool {
    exists|coeffs: Seq<int>| shards_of(shards, key, threshold, share_count, passwords, coeffs)
}

/// Why a key cannot be split with these parameters, if it cannot.
pub open spec fn split_key_error(threshold: u8, share_count: u8, passwords: nat) -> Option<
    ErrorView,
> {
    if threshold == 0 || threshold > share_count {
        Some(
            ErrorView::InvalidParams(
                "threshold ("@ + crate::text::decimal_text(threshold as nat)
                    + ") must be between 1 and share count ("@ + crate::text::decimal_text(
                    share_count as nat,
                ) + ")"@,
            ),
        )
    } else if passwords != share_count {
        Some(
            ErrorView::InvalidParams(
                "expected "@ + crate::text::decimal_text(share_count as nat) + " passwords, got "@
                    + crate::text::decimal_text(passwords),
            ),
        )
    } else if threshold < 2 {
        Some(ErrorView::Vsss("Threshold cannot be less than 2"@))
    } else {
        None
    }
}

/// Why a split cannot be made, if it cannot.
pub open spec fn init_error(threshold: u8, share_count: u8, passwords: Seq<Seq<char>>) -> Option<
    ErrorView,
> {
    match split_key_error(threshold, share_count, passwords.len()) {
        Some(error) => Some(error),
        None => if crate::crypto::all_passwords_fit(passwords) {
            None
        } else {
            Some(ErrorView::Kdf("password is too long"@))
        },
    }
}

/// The shares of a key, numbered from 1 on.
pub open spec fn is_sharing(
    shares: Seq<crate::sss::Share>,
    key: Seq<u8>,
    threshold: u8,
    share_count: u8,
) -> bool {
    shares.len() == share_count && exists|coeffs: Seq<int>|
        on_sharing_polynomial(coeffs, shares, key, threshold)
}

/// The shares of a key lie on the sharing polynomial `coeffs`.
pub open spec fn on_sharing_polynomial(
    coeffs: Seq<int>,
    shares: Seq<crate::sss::Share>,
    key: Seq<u8>,
    threshold: u8,
) -> bool {
    crate::sss::shares_secret(
        coeffs,
        crate::bytes::be_value(key) as int,
        threshold as nat,
        crate::sss::points(shares),
    )
}

/// Split a private key into `share_count` shares, for one password each.
pub fn split_key(
    key: &SecretKey,
    threshold: u8,
    share_count: u8,
    passwords: &[String],
) -> (shares: Result<Vec<crate::sss::Share>, Error>)
    ensures
        match split_key_error(threshold, share_count, passwords@.len()) {
            Some(error) => shares is Err && shares->Err_0@ == error,
            None => shares is Ok && is_sharing(shares->Ok_0@, key@, threshold, share_count),
        },
        shares is Ok <==> 2 <= threshold <= share_count && passwords@.len() == share_count,
        shares matches Ok(drawn) ==> crate::sss::are_drawn(drawn, key@, threshold, share_count),
{
    if threshold == 0 || threshold > share_count {
        return Err(
            Error::InvalidParams(
                "threshold (".to_owned().concat(decimal(threshold as usize).as_str()).concat(
                    ") must be between 1 and share count (",
                ).concat(decimal(share_count as usize).as_str()).concat(")"),
            ),
        );
    }
    if passwords.len() != share_count as usize {
        return Err(
            Error::InvalidParams(
                "expected ".to_owned().concat(decimal(share_count as usize).as_str()).concat(
                    " passwords, got ",
                ).concat(decimal(passwords.len()).as_str()),
            ),
        );
    }
    let shares = match crate::sss::split(key, threshold, share_count) {
        Ok(shares) => shares,
        Err(e) => return Err(e),
    };
    proof {
        let coeffs = choose|coeffs: Seq<int>|
            crate::sss::shares_secret(
                coeffs,
                crate::bytes::be_value(key@) as int,
                threshold as nat,
                crate::sss::points(shares@),
            );
        assert(on_sharing_polynomial(coeffs, shares@, key@, threshold));
    }
    Ok(shares)
}

/// The shard of a share: it is named after and carries the share's number, with
/// the split's parameters, and its password opens the share value.
pub open spec fn seals_share(
    named: NamedShard,
    share: crate::sss::Share,
    threshold: u8,
    share_count: u8,
    password: Seq<char>,
) -> bool {
    &&& named.file_name@ == "shard-"@ + crate::text::decimal_text(share.identifier@[31] as nat)
        + ".hx"@
    &&& named.shard.threshold == threshold
    &&& named.shard.share_count == share_count
    &&& named.shard.id == share.identifier@[31]
    &&& named.shard.decrypt_outcome(password) == Ok::<Seq<u8>, ErrorView>(share.value@)
}

/// Encrypts shares, each under the password at its position.
pub fn seal_shards(
    shares: &Vec<crate::sss::Share>,
    threshold: u8,
    share_count: u8,
    passwords: &[String],
) -> (shards: Result<Vec<NamedShard>, Error>)
    requires
        shares@.len() == passwords@.len(),
    ensures
        crate::crypto::all_passwords_fit(crate::files::texts_view(passwords@)) ==> shards is Ok
            && shards->Ok_0@.len() == shares@.len() && forall|i: int|
            0 <= i < shares@.len() ==> seals_share(
                #[trigger] shards->Ok_0@[i],
                shares@[i],
                threshold,
                share_count,
                passwords@[i]@,
            ),
        !crate::crypto::all_passwords_fit(crate::files::texts_view(passwords@)) ==> shards is Err
            && shards->Err_0@ == ErrorView::Kdf("password is too long"@),
        shards is Ok <==> forall|i: int|
            0 <= i < passwords@.len() ==> vstd::utf8::encode_utf8(
                (#[trigger] passwords@[i])@,
            ).len() <= 0xFFFF_FFFF,
        shards matches Ok(sealed) ==> sealed@.len() == shares@.len() && forall|i: int|
            #![trigger sealed@[i]]
            0 <= i < shares@.len() ==> {
                let shard = sealed@[i].shard;
                &&& sealed@[i].file_name@ == "shard-"@ + crate::text::decimal_text(
                    shares@[i].identifier@[31] as nat,
                ) + ".hx"@
                &&& shard.threshold == threshold
                &&& shard.share_count == share_count
                &&& shard.id == shares@[i].identifier@[31]
                &&& crate::crypto::is_random(shard.salt)
                &&& crate::crypto::is_random_nonce(shard.nonce)
                &&& crate::crypto::aes256gcm_open(
                    crate::crypto::argon2id(passwords@[i]@, shard.salt@, 19456, 2, 1),
                    shard.nonce@,
                    seq![threshold, share_count, shard.id],
                    shard.sealed@,
                ) == Some(shares@[i].value@)
            },
{
    let ghost texts = crate::files::texts_view(passwords@);
    let mut shards: Vec<NamedShard> = Vec::with_capacity(shares.len());
    let mut i: usize = 0;
    while i < shares.len()
        invariant
            i <= shares@.len() == passwords@.len(),
            texts == crate::files::texts_view(passwords@),
            shards@.len() == i,
            forall|j: int| 0 <= j < i ==> crate::crypto::password_fits(#[trigger] texts[j]),
            forall|j: int|
                0 <= j < i ==> seals_share(
                    #[trigger] shards@[j],
                    shares@[j],
                    threshold,
                    share_count,
                    passwords@[j]@,
                ),
            forall|j: int|
                0 <= j < i ==> crate::crypto::is_random((#[trigger] shards@[j]).shard.salt)
                    && crate::crypto::is_random_nonce(shards@[j].shard.nonce),
        decreases shares@.len() - i,
    {
        assert(texts[i as int] == passwords@[i as int]@);
        let share = &shares[i];
        let id: u8 = share_id(share);
        let salt = crate::crypto::random_salt();
        let nonce = crate::crypto::random_nonce();
        let aad = crate::shard::aad(threshold, share_count, id);

        let sealed = crate::crypto::seal(
            &share.value,
            passwords[i].as_str(),
            &salt,
            &nonce,
            &aad,
        );
        let sealed = match sealed {
            Ok(sealed) => sealed,
            Err(e) => return Err(e),
        };
        let sealed_arr = crate::bytes::array_at(sealed.as_slice(), 0);
        assert(sealed_arr@ =~= sealed@);

        let shard = Shard::new(threshold, share_count, id, salt, nonce, sealed_arr);
        let file_name = "shard-".to_owned().concat(decimal(id as usize).as_str()).concat(".hx");
        shards.push(NamedShard { file_name, shard });
        i += 1;
    }
    proof {
        assert forall|j: int| 0 <= j < passwords@.len() implies vstd::utf8::encode_utf8(
            (#[trigger] passwords@[j])@,
        ).len() <= 0xFFFF_FFFF by {
            assert(crate::crypto::password_fits(texts[j]));
        }
        assert forall|j: int| #![trigger shards@[j]] 0 <= j < shares@.len() implies {
            let shard = shards@[j].shard;
            crate::crypto::aes256gcm_open(
                crate::crypto::argon2id(passwords@[j]@, shard.salt@, 19456, 2, 1),
                shard.nonce@,
                seq![threshold, share_count, shard.id],
                shard.sealed@,
            ) == Some(shares@[j].value@)
        } by {
            assert(seals_share(shards@[j], shares@[j], threshold, share_count, passwords@[j]@));
            assert(crate::crypto::password_fits(texts[j]));
            assert(texts[j] == passwords@[j]@);
            crate::shard::shard_opens_under_its_password_alone(shards@[j].shard, passwords@[j]@);
        }
    }
    Ok(shards)
}

/// Split a private key into `share_count` encrypted shards, each bound to one
/// of `passwords` (one guardian password per shard, in the same order). Each
/// comes with the name of the file it belongs in.
pub fn init_shards(
    key: &SecretKey,
    threshold: u8,
    share_count: u8,
    passwords: &[String],
) -> (shards: Result<Vec<NamedShard>, Error>)
    ensures
        match init_error(threshold, share_count, crate::files::texts_view(passwords@)) {
            Some(error) => shards is Err && shards->Err_0@ == error,
            None => shards is Ok && is_split(
                shards->Ok_0@,
                key@,
                threshold,
                share_count,
                crate::files::texts_view(passwords@),
            ),
        },
        shards is Ok <==> 2 <= threshold <= share_count && passwords@.len() == share_count
            && forall|i: int|
            0 <= i < passwords@.len() ==> vstd::utf8::encode_utf8(
                (#[trigger] passwords@[i])@,
            ).len() <= 0xFFFF_FFFF,
        shards matches Ok(sealed) ==> exists|shares: Vec<crate::sss::Share>|
            #[trigger] crate::sss::are_drawn(shares, key@, threshold, share_count) && holds_drawn(
                sealed@,
                shares@,
                threshold,
                share_count,
                crate::files::texts_view(passwords@),
            ),
{
    let ghost texts = crate::files::texts_view(passwords@);
    let shares = match split_key(key, threshold, share_count, passwords) {
        Ok(shares) => shares,
        Err(e) => return Err(e),
    };
    let shards = match seal_shards(&shares, threshold, share_count, passwords) {
        Ok(shards) => shards,
        Err(e) => return Err(e),
    };
    proof {
        let coeffs = choose|coeffs: Seq<int>|
            on_sharing_polynomial(coeffs, shares@, key@, threshold);
        let points = crate::sss::points(shares@);
        assert forall|i: int| 0 <= i < shards@.len() implies holds_share(
            #[trigger] shards@[i],
            i,
            threshold,
            share_count,
            texts[i],
            crate::field::eval(coeffs, i + 1) % crate::field::order(),
        ) by {
            assert(seals_share(shards@[i], shares@[i], threshold, share_count, passwords@[i]@));
            assert(points[i] == shares@[i]@);
            assert(points[i].x == i + 1 && points[i].valid());
        }
        assert(shards_of(shards@, key@, threshold, share_count, texts, coeffs));
        assert(holds_drawn(shards@, shares@, threshold, share_count, texts)) by {
            assert forall|i: int|
                #![trigger shards@[i]]
                0 <= i < shards@.len() implies shards@[i].shard.id == i + 1 && texts[i]
                == passwords@[i]@ by {
                assert(points[i] == shares@[i]@);
                assert(points[i].x == i + 1 && points[i].valid());
                assert(seals_share(shards@[i], shares@[i], threshold, share_count, passwords@[i]@));
            }
        }
    }
    Ok(shards)
}

/// The shards hold the shares, each under its own password: shard number
/// `i + 1` is named after and carries its number, with the split's parameters,
/// random salt and nonce, and AES-256-GCM opens share `i` in it under the
/// Argon2id hash of the password.
pub open spec fn holds_drawn(
    shards: Seq<NamedShard>,
    shares: Seq<crate::sss::Share>,
    threshold: u8,
    share_count: u8,
    passwords: Seq<Seq<char>>,
) -> bool {
    &&& shards.len() == share_count
    &&& shares.len() == share_count
    &&& forall|i: int|
        #![trigger shards[i]]
        0 <= i < shards.len() ==> {
            let shard = shards[i].shard;
            &&& shards[i].file_name@ == "shard-"@ + crate::text::decimal_text((i + 1) as nat)
                + ".hx"@
            &&& shard.threshold == threshold
            &&& shard.share_count == share_count
            &&& shard.id == i + 1
            &&& crate::crypto::is_random(shard.salt)
            &&& crate::crypto::is_random_nonce(shard.nonce)
            &&& crate::crypto::aes256gcm_open(
                crate::crypto::argon2id(passwords[i], shard.salt@, 19456, 2, 1),
                shard.nonce@,
                seq![threshold, share_count, (i + 1) as u8],
                shard.sealed@,
            ) == Some(shares[i].value@)
        }
}

/// A key is refused for the parameters of its split if and only if the threshold
/// is below 2 or above the share count, or there is not one password for each
/// share. A threshold of 1 is an error of the secret sharing, the others are
/// invalid parameters.
pub proof fn split_is_refused_for_its_parameters(
    threshold: u8,
    share_count: u8,
    passwords: Seq<Seq<char>>,
)
    ensures
        split_key_error(threshold, share_count, passwords.len()) is None <==> 2 <= threshold
            <= share_count && passwords.len() == share_count,
        threshold == 1 && 1 <= share_count && passwords.len() == share_count ==> split_key_error(
            threshold,
            share_count,
            passwords.len(),
        ) == Some(ErrorView::Vsss("Threshold cannot be less than 2"@)),
        threshold == 0 || threshold > share_count ==> split_key_error(
            threshold,
            share_count,
            passwords.len(),
        ) == Some(
            ErrorView::InvalidParams(
                "threshold ("@ + crate::text::decimal_text(threshold as nat)
                    + ") must be between 1 and share count ("@ + crate::text::decimal_text(
                    share_count as nat,
                ) + ")"@,
            ),
        ),
        1 <= threshold <= share_count && passwords.len() != share_count ==> split_key_error(
            threshold,
            share_count,
            passwords.len(),
        ) == Some(
            ErrorView::InvalidParams(
                "expected "@ + crate::text::decimal_text(share_count as nat) + " passwords, got "@
                    + crate::text::decimal_text(passwords.len()),
            ),
        ),
        init_error(threshold, share_count, passwords) is Some ==> init_error(
            threshold,
            share_count,
            passwords,
        ) == (if split_key_error(threshold, share_count, passwords.len()) is Some {
            split_key_error(threshold, share_count, passwords.len())
        } else {
            Some(ErrorView::Kdf("password is too long"@))
        }),
        init_error(threshold, share_count, passwords) is None <==> 2 <= threshold <= share_count
            && passwords.len() == share_count && forall|i: int|
            0 <= i < passwords.len() ==> vstd::utf8::encode_utf8(#[trigger] passwords[i]).len()
                <= 0xFFFF_FFFF,
{
    if crate::crypto::all_passwords_fit(passwords) {
        assert forall|i: int| 0 <= i < passwords.len() implies vstd::utf8::encode_utf8(
            #[trigger] passwords[i],
        ).len() <= 0xFFFF_FFFF by {
            assert(crate::crypto::password_fits(passwords[i]));
        }
    }
}

/// Extract the share identifier (x-coordinate) as a `u8`.
fn share_id(share: &crate::sss::Share) -> (id: u8)
    ensures
        id == share.identifier@[31],
        share@.x <= 255 ==> id == share@.x,
{
    share.identifier[31]
}

/// Rebuild a share from its identifier and 32-byte scalar value.
fn build_share(id: u8, value_bytes: &[u8; SHARE_VALUE_LEN]) -> (share: Result<
    crate::sss::Share,
    Error,
>)
    ensures
        crate::error::outcome(share) == share_outcome(id, value_bytes@),
{
    match crate::sss::scalar_from_repr(value_bytes) {
        Some(value) => Ok(
            crate::sss::Share { identifier: crate::sss::scalar_from_u64(id as u64), value },
        ),
        None => Err(Error::InvalidShardFile("invalid share value".to_owned())),
    }
}

/// The outcome of reading a share value that was decrypted.
pub open spec fn share_outcome(id: u8, value: Seq<u8>) -> Result<crate::sss::Point, ErrorView> {
    if value.len() != SHARE_VALUE_LEN {
        Err(ErrorView::InvalidShardFile("decrypted share has wrong length"@))
    } else if crate::bytes::be_value(value) >= crate::field::order() {
        Err(ErrorView::InvalidShardFile("invalid share value"@))
    } else {
        Ok(crate::sss::Point { x: id as int, y: crate::bytes::be_value(value) as int })
    }
}

/// The steps of reading shard files.
pub open spec fn read_steps(files: Seq<StoredFileView>) -> Seq<Step<Shard>> {
    files.map_values(
        |file: StoredFileView| crate::steps::silent(crate::shard::read_outcome(file.content)),
    )
}

/// The shard at `i` is the first whose split parameters differ from those of
/// the first shard.
pub open spec fn first_mismatch(shards: Seq<Shard>, i: int) -> bool {
    &&& 0 <= i < shards.len()
    &&& !same_split(shards[0], shards[i])
    &&& forall|j: int| 0 <= j < i ==> same_split(shards[0], #[trigger] shards[j])
}

/// Two shards have the same threshold and share count.
pub open spec fn same_split(a: Shard, b: Shard) -> bool {
    a.threshold == b.threshold && a.share_count == b.share_count
}

/// The step of decrypting one shard and reading its share value.
pub open spec fn decrypt_step(shard: Shard, password: Seq<char>) -> Step<crate::sss::Point> {
    match shard.decrypt_outcome(password) {
        Ok(value) => Step {
            events: seq![(shard.id, true)],
            result: share_outcome(shard.id, value),
        },
        Err(error) => Step { events: seq![(shard.id, false)], result: Err(error) },
    }
}

/// The steps of decrypting shards, each under the password at its position.
pub open spec fn decrypt_steps(shards: Seq<Shard>, passwords: Seq<Seq<char>>) -> Seq<
    Step<crate::sss::Point>,
> {
    Seq::new(shards.len(), |i: int| decrypt_step(shards[i], passwords[i]))
}

/// What a reconstruction reports and what it comes to.
#[verifier::ext_equal]
pub ghost struct Reconstruction {
    /// The id and the outcome of each shard decryption.
    pub events: Seq<(u8, bool)>,
    /// The bytes of the key, or the error.
    pub result: Result<Seq<u8>, ErrorView>,
}

/// A reconstruction that fails before any shard is decrypted.
pub open spec fn refused(error: ErrorView) -> Reconstruction {
    Reconstruction { events: Seq::empty(), result: Err(error) }
}

/// The reconstruction of a key from shard files and passwords.
pub open spec fn reconstruction(
    files: Seq<StoredFileView>,
    passwords: Seq<Seq<char>>,
) -> Reconstruction {
    if passwords.len() != files.len() {
        refused(
            ErrorView::InvalidParams(
                "expected "@ + crate::text::decimal_text(files.len()) + " passwords, got "@
                    + crate::text::decimal_text(passwords.len()),
            ),
        )
    } else {
        match crate::steps::run(read_steps(files)).result {
            Err(error) => refused(error),
            Ok(shards) => reconstruction_of(files, shards, passwords),
        }
    }
}

/// The reconstruction of a key from shards that were read from files.
pub open spec fn reconstruction_of(
    files: Seq<StoredFileView>,
    shards: Seq<Shard>,
    passwords: Seq<Seq<char>>,
) -> Reconstruction {
    if shards.len() == 0 {
        refused(ErrorView::InvalidParams("no shards provided"@))
    } else if exists|i: int| first_mismatch(shards, i) {
        let i = choose|i: int| first_mismatch(shards, i);
        refused(
            ErrorView::SplitMismatch {
                path: files[i].path,
                t: shards[i].threshold,
                n: shards[i].share_count,
            },
        )
    } else if shards.len() < shards[0].threshold {
        refused(ErrorView::NotEnoughShares(shards[0].threshold as nat, shards.len()))
    } else {
        let run = crate::steps::run(decrypt_steps(shards, passwords));
        Reconstruction {
            events: run.events,
            result: match run.result {
                Err(error) => Err(error),
                Ok(points) => crate::sss::combine_outcome(points),
            },
        }
    }
}

/// Reconstruct a private key from shard files.
///
/// Each shard is decrypted with the guardian password at the corresponding
/// position in `passwords`. All shards must come from the same split (same
/// threshold and share count), and at least `threshold` of them must be
/// supplied.
pub fn reconstruct(files: &[StoredFile], passwords: &[String]) -> (key: Result<SecretKey, Error>)
    ensures
        crate::error::outcome(key) == reconstruction(
            crate::files::files_view(files@),
            crate::files::texts_view(passwords@),
        ).result,
{
    let mut events: Vec<(u8, bool)> = Vec::new();
    reconstruct_inner(files, passwords, &mut events)
}

/// Reconstruct a private key from shard files, recording each shard's
/// decryption outcome in the access log, with the time at which the
/// reconstruction began.
pub fn reconstruct_with_audit(
    files: &[StoredFile],
    passwords: &[String],
    log: &mut Vec<crate::audit::Entry>,
    ts: u64,
    attempt: u64,
) -> (key: Result<SecretKey, Error>)
    ensures
        crate::error::outcome(key) == reconstruction(
            crate::files::files_view(files@),
            crate::files::texts_view(passwords@),
        ).result,
        final(log)@ == old(log)@ + crate::audit::Entry::of_events(
            ts,
            attempt,
            reconstruction(
                crate::files::files_view(files@),
                crate::files::texts_view(passwords@),
            ).events,
        ),
{
    let mut events: Vec<(u8, bool)> = Vec::new();
    let key = reconstruct_inner(files, passwords, &mut events);
    crate::audit::record(log, ts, attempt, &events);
    key
}

/// Reads the shards of files, up to the first that cannot be read.
fn read_shards(files: &[StoredFile]) -> (shards: Result<Vec<Shard>, Error>)
    ensures
        match crate::steps::run(read_steps(crate::files::files_view(files@))).result {
            Ok(expected) => shards is Ok && shards->Ok_0@ == expected && expected.len()
                == files@.len(),
            Err(error) => shards is Err && shards->Err_0@ == error,
        },
{
    let ghost steps = read_steps(crate::files::files_view(files@));
    let mut shards: Vec<Shard> = Vec::with_capacity(files.len());
    let mut i: usize = 0;
    assert(steps.take(0) =~= Seq::empty());
    while i < files.len()
        invariant
            i <= files@.len(),
            steps == read_steps(crate::files::files_view(files@)),
            crate::steps::run(steps.take(i as int)).result == Ok::<Seq<Shard>, ErrorView>(shards@),
            shards@.len() == i,
        decreases files@.len() - i,
    {
        proof {
            crate::steps::lemma_run_next(steps, i as int);
            assert(steps[i as int].result == crate::shard::read_outcome(
                crate::files::content_outcome(files@[i as int].content),
            ));
        }
        match Shard::read(&files[i].content) {
            Ok(shard) => shards.push(shard),
            Err(e) => {
                proof {
                    crate::steps::lemma_run_failed(steps, i + 1);
                }
                return Err(e);
            },
        }
        i += 1;
    }
    assert(steps.take(i as int) =~= steps);
    Ok(shards)
}

/// Shared implementation of [`reconstruct`] and [`reconstruct_with_audit`],
/// appending to `events` the id and outcome of each shard decryption.
fn reconstruct_inner(
    files: &[StoredFile],
    passwords: &[String],
    events: &mut Vec<(u8, bool)>,
) -> (key: Result<SecretKey, Error>)
    ensures
        crate::error::outcome(key) == reconstruction(
            crate::files::files_view(files@),
            crate::files::texts_view(passwords@),
        ).result,
        final(events)@ == old(events)@ + reconstruction(
            crate::files::files_view(files@),
            crate::files::texts_view(passwords@),
        ).events,
{
    let ghost views = crate::files::files_view(files@);
    let ghost texts = crate::files::texts_view(passwords@);
    if passwords.len() != files.len() {
        return Err(
            Error::InvalidParams(
                "expected ".to_owned().concat(decimal(files.len()).as_str()).concat(
                    " passwords, got ",
                ).concat(decimal(passwords.len()).as_str()),
            ),
        );
    }
    let shards = match read_shards(files) {
        Ok(shards) => shards,
        Err(e) => return Err(e),
    };
    if shards.len() == 0 {
        return Err(Error::InvalidParams("no shards provided".to_owned()));
    }
    let threshold: u8 = shards[0].threshold;
    let share_count: u8 = shards[0].share_count;
    let mut idx: usize = 0;
    while idx < shards.len()
        invariant
            idx <= shards@.len() == files@.len(),
            0 < shards@.len(),
            threshold == shards@[0].threshold,
            share_count == shards@[0].share_count,
            views == crate::files::files_view(files@),
            texts == crate::files::texts_view(passwords@),
            passwords@.len() == files@.len(),
            crate::steps::run(read_steps(views)).result == Ok::<Seq<Shard>, ErrorView>(shards@),
            events@ == old(events)@,
            forall|j: int| 0 <= j < idx ==> same_split(shards@[0], #[trigger] shards@[j]),
        decreases shards@.len() - idx,
    {
        let shard = &shards[idx];
        if shard.threshold != threshold || shard.share_count != share_count {
            proof {
                assert(first_mismatch(shards@, idx as int));
                let i = choose|i: int| first_mismatch(shards@, i);
                assert(i == idx) by {
                    assert(i < idx ==> same_split(shards@[0], shards@[i]));
                    assert(idx < i ==> same_split(shards@[0], shards@[idx as int]));
                }
                assert(views[i] == files@[i]@);
            }
            return Err(
                Error::SplitMismatch {
                    path: files[idx].path.clone(),
                    t: shard.threshold,
                    n: shard.share_count,
                },
            );
        }
        idx += 1;
    }
    assert(!exists|i: int| first_mismatch(shards@, i));
    if shards.len() < threshold as usize {
        return Err(Error::NotEnoughShares(threshold as usize, shards.len()));
    }
    let ghost steps = decrypt_steps(shards@, texts);
    let mut shares: Vec<crate::sss::Share> = Vec::with_capacity(shards.len());
    let mut i: usize = 0;
    assert(steps.take(0) =~= Seq::empty());
    assert(crate::sss::points(shares@) =~= Seq::empty());
    while i < shards.len()
        invariant
            i <= shards@.len() == passwords@.len(),
            texts == crate::files::texts_view(passwords@),
            steps == decrypt_steps(shards@, texts),
            reconstruction(views, texts) == reconstruction_of(views, shards@, texts),
            0 < shards@.len(),
            shards@.len() >= shards@[0].threshold,
            !exists|i: int| first_mismatch(shards@, i),
            views == crate::files::files_view(files@),
            crate::steps::run(steps.take(i as int)).result == Ok::<
                Seq<crate::sss::Point>,
                ErrorView,
            >(crate::sss::points(shares@)),
            events@ == old(events)@ + crate::steps::run(steps.take(i as int)).events,
            crate::sss::all_valid(crate::sss::points(shares@)),
        decreases shards@.len() - i,
    {
        let ghost before = *events;
        let ghost shares_before = shares@;
        proof {
            crate::steps::lemma_run_next(steps, i as int);
            assert(steps[i as int] == decrypt_step(shards@[i as int], passwords@[i as int]@));
        }
        let shard = &shards[i];
        let value = match shard.decrypt(passwords[i].as_str()) {
            Ok(value) => {
                events.push((shard.id, true));
                SecretVec { bytes: value }
            },
            Err(e) => {
                events.push((shard.id, false));
                proof {
                    crate::steps::lemma_run_failed(steps, i + 1);
                    assert(events@ =~= before@ + steps[i as int].events);
                }
                return Err(e);
            },
        };
        assert(events@ =~= before@ + steps[i as int].events);
        if value.bytes.len() != SHARE_VALUE_LEN {
            return Err(Error::InvalidShardFile("decrypted share has wrong length".to_owned()));
        }
        let value_bytes: Secret<SHARE_VALUE_LEN> = Secret {
            bytes: crate::bytes::array_at(value.bytes.as_slice(), 0),
        };
        assert(value_bytes@ =~= value@);
        match build_share(shard.id, &value_bytes.bytes) {
            Ok(share) => {
                shares.push(share);
                proof {
                    assert(crate::sss::points(shares@) =~= crate::sss::points(shares_before).push(
                        share@,
                    ));
                }
            },
            Err(e) => {
                proof {
                    crate::steps::lemma_run_failed(steps, i + 1);
                }
                return Err(e);
            },
        }
        i += 1;
    }
    assert(steps.take(i as int) =~= steps);
    crate::sss::combine(&shares)
}

/// Any threshold of the shard files of a split, or more, in any order, give
/// the key back under their passwords.
pub proof fn reconstruct_inverts_init(
    shards: Seq<NamedShard>,
    key: Seq<u8>,
    threshold: u8,
    share_count: u8,
    passwords: Seq<Seq<char>>,
    picked: Seq<int>,
    files: Seq<StoredFileView>,
    texts: Seq<Seq<char>>,
)
    requires
        crate::key::valid_key(key),
        2 <= threshold <= picked.len(),
        is_split(shards, key, threshold, share_count, passwords),
        crate::field::distinct(picked),
        files.len() == picked.len(),
        texts.len() == picked.len(),
        forall|k: int|
            0 <= k < picked.len() ==> {
                &&& 0 <= #[trigger] picked[k] < share_count
                &&& files[k].content == Ok::<Seq<u8>, ErrorView>(
                    shards[picked[k]].shard.encoding(),
                )
                &&& texts[k] == passwords[picked[k]]
            },
    ensures
        reconstruction(files, texts).result == Ok::<Seq<u8>, ErrorView>(key),
{
    let coeffs = choose|coeffs: Seq<int>|
        shards_of(shards, key, threshold, share_count, passwords, coeffs);
    let chosen = picked.map_values(|i: int| shards[i].shard);
    let steps = read_steps(files);
    assert forall|k: int| 0 <= k < steps.len() implies (#[trigger] steps[k]).result == Ok::<
        Shard,
        ErrorView,
    >(chosen[k]) by {
        assert(0 <= picked[k] < share_count);
        crate::shard::shard_round_trip(chosen[k]);
    }
    crate::steps::lemma_run_all(steps, chosen);
    assert forall|k: int| 0 <= k < chosen.len() implies (#[trigger] chosen[k]).threshold
        == threshold && chosen[k].share_count == share_count by {
        let i = picked[k];
        assert(holds_share(
            shards[i],
            i,
            threshold,
            share_count,
            passwords[i],
            crate::field::eval(coeffs, i + 1) % crate::field::order(),
        ));
    }
    assert forall|i: int| !first_mismatch(chosen, i) by {
        if 0 <= i < chosen.len() {
            assert(same_split(chosen[0], chosen[i]));
        }
    }
    let all = Seq::new(
        share_count as nat,
        |i: int|
            crate::sss::Point {
                x: i + 1,
                y: crate::field::eval(coeffs, i + 1) % crate::field::order(),
            },
    );
    assert forall|i: int| 0 <= i < all.len() implies (#[trigger] all[i]).valid() by {
        vstd::arithmetic::div_mod::lemma_mod_bound(
            crate::field::eval(coeffs, i + 1),
            crate::field::order(),
        );
    }
    assert(crate::sss::shares_secret(
        coeffs,
        crate::bytes::be_value(key) as int,
        threshold as nat,
        all,
    ));
    let points = picked.map_values(|i: int| all[i]);
    let opened = decrypt_steps(chosen, texts);
    assert forall|k: int| 0 <= k < opened.len() implies (#[trigger] opened[k]).result == Ok::<
        crate::sss::Point,
        ErrorView,
    >(points[k]) by {
        let i = picked[k];
        assert(holds_share(
            shards[i],
            i,
            threshold,
            share_count,
            passwords[i],
            crate::field::eval(coeffs, i + 1) % crate::field::order(),
        ));
        assert(all[i].valid());
    }
    crate::steps::lemma_run_all(opened, points);
    crate::sss::threshold_determines_secret(coeffs, key, threshold as nat, all, picked);
}

/// A key only comes out of shards that agree on their split, no fewer than its
/// threshold, each opened by the password at its position.
pub proof fn reconstruct_needs_threshold(files: Seq<StoredFileView>, passwords: Seq<Seq<char>>)
    requires
        reconstruction(files, passwords).result is Ok,
    ensures
        passwords.len() == files.len(),
        crate::steps::run(read_steps(files)).result matches Ok(shards) && shards.len()
            == files.len() && shards.len() >= shards[0].threshold && forall|i: int|
            0 <= i < shards.len() ==> same_split(shards[0], #[trigger] shards[i])
                && shards[i].decrypt_outcome(passwords[i]) is Ok,
{
    let shards = crate::steps::run(read_steps(files)).result->Ok_0;
    crate::steps::lemma_run_ok(read_steps(files));
    lemma_no_mismatch(shards, shards.len() as int);
    let steps = decrypt_steps(shards, passwords);
    crate::steps::lemma_run_ok(steps);
    assert forall|i: int| 0 <= i < shards.len() implies (#[trigger] shards[i]).decrypt_outcome(
        passwords[i],
    ) is Ok by {
        assert(steps[i].result is Ok);
    }
}

proof fn lemma_no_mismatch(shards: Seq<Shard>, n: int)
    requires
        0 <= n <= shards.len(),
        !exists|i: int| first_mismatch(shards, i),
    ensures
        forall|i: int| 0 <= i < n ==> same_split(shards[0], #[trigger] shards[i]),
    decreases n,
{
    if n > 0 {
        lemma_no_mismatch(shards, n - 1);
        assert(!first_mismatch(shards, n - 1));
    }
}

/// Shards that were read are refused before any of them is opened: without one
/// password for each, without a shard, if two of them differ in the threshold
/// or the share count, naming the first that differs from the first shard, and
/// if they are fewer than the threshold. Nothing else refuses them.
pub proof fn reconstruct_refuses_before_opening(
    files: Seq<StoredFileView>,
    shards: Seq<Shard>,
    passwords: Seq<Seq<char>>,
)
    requires
        files.len() == shards.len(),
        forall|i: int|
            0 <= i < files.len() ==> (#[trigger] files[i]).content == Ok::<Seq<u8>, ErrorView>(
                shards[i].encoding(),
            ),
    ensures
        passwords.len() != files.len() ==> reconstruction(files, passwords).result == Err::<
            Seq<u8>,
            ErrorView,
        >(
            ErrorView::InvalidParams(
                "expected "@ + crate::text::decimal_text(files.len()) + " passwords, got "@
                    + crate::text::decimal_text(passwords.len()),
            ),
        ),
        passwords.len() == files.len() && files.len() == 0 ==> reconstruction(
            files,
            passwords,
        ).result == Err::<Seq<u8>, ErrorView>(ErrorView::InvalidParams("no shards provided"@)),
        forall|k: int|
            passwords.len() == files.len() && 0 <= k < shards.len() && ((
            #[trigger] shards[k]).threshold != shards[0].threshold || shards[k].share_count
                != shards[0].share_count) && (forall|j: int|
                0 <= j < k ==> (#[trigger] shards[j]).threshold == shards[0].threshold
                    && shards[j].share_count == shards[0].share_count) ==> reconstruction(
                files,
                passwords,
            ).result == Err::<Seq<u8>, ErrorView>(
                ErrorView::SplitMismatch {
                    path: files[k].path,
                    t: shards[k].threshold,
                    n: shards[k].share_count,
                },
            ),
        passwords.len() == files.len() && 0 < shards.len() && (forall|j: int|
            0 <= j < shards.len() ==> (#[trigger] shards[j]).threshold == shards[0].threshold
                && shards[j].share_count == shards[0].share_count) ==> {
            if shards.len() < shards[0].threshold {
                reconstruction(files, passwords).result == Err::<Seq<u8>, ErrorView>(
                    ErrorView::NotEnoughShares(shards[0].threshold as nat, shards.len()),
                )
            } else {
                reconstruction(files, passwords).events.len() >= 1
            }
        },
        (reconstruction(files, passwords).result matches Err(error) && (error is InvalidParams
            || error is SplitMismatch || error is NotEnoughShares)) ==> reconstruction(
            files,
            passwords,
        ).events.len() == 0,
{
    lemma_read(files, shards);
    if passwords.len() == files.len() && 0 < shards.len() {
        assert forall|k: int|
            0 <= k < shards.len() && ((#[trigger] shards[k]).threshold != shards[0].threshold
                || shards[k].share_count != shards[0].share_count) && (forall|j: int|
                0 <= j < k ==> (#[trigger] shards[j]).threshold == shards[0].threshold
                    && shards[j].share_count == shards[0].share_count) implies reconstruction(
            files,
            passwords,
        ).result == Err::<Seq<u8>, ErrorView>(
            ErrorView::SplitMismatch {
                path: files[k].path,
                t: shards[k].threshold,
                n: shards[k].share_count,
            },
        ) by {
            assert(first_mismatch(shards, k));
            let i = choose|i: int| first_mismatch(shards, i);
            assert(i == k) by {
                assert(i < k ==> same_split(shards[0], shards[i]));
                assert(k < i ==> same_split(shards[0], shards[k]));
            }
        }
        if !exists|i: int| first_mismatch(shards, i) {
            if shards.len() >= shards[0].threshold {
                lemma_opened(files, shards, passwords);
            }
        }
    }
}

proof fn lemma_read(files: Seq<StoredFileView>, shards: Seq<Shard>)
    requires
        files.len() == shards.len(),
        forall|i: int|
            0 <= i < files.len() ==> (#[trigger] files[i]).content == Ok::<Seq<u8>, ErrorView>(
                shards[i].encoding(),
            ),
    ensures
        crate::steps::run(read_steps(files)).result == Ok::<Seq<Shard>, ErrorView>(shards),
{
    let steps = read_steps(files);
    assert forall|k: int| 0 <= k < steps.len() implies (#[trigger] steps[k]).result == Ok::<
        Shard,
        ErrorView,
    >(shards[k]) by {
        crate::shard::shard_round_trip(shards[k]);
        assert(files[k].content == Ok::<Seq<u8>, ErrorView>(shards[k].encoding()));
    }
    crate::steps::lemma_run_all(steps, shards);
}

/// What opening the shards reports, up to the first that is not opened.
proof fn lemma_opened(
    files: Seq<StoredFileView>,
    shards: Seq<Shard>,
    passwords: Seq<Seq<char>>,
)
    requires
        0 < shards.len(),
    ensures
        crate::steps::run(decrypt_steps(shards, passwords)).events.len() >= 1,
        crate::steps::run(decrypt_steps(shards, passwords)).result matches Err(error)
            ==> error is Decrypt || error is InvalidShardFile,
{
    let steps = decrypt_steps(shards, passwords);
    if crate::steps::run(steps).result is Ok {
        crate::steps::lemma_run_ok(steps);
        crate::steps::run_reports_its_steps(steps, steps.len() as int);
        assert(steps.take(steps.len() as int) =~= steps);
    } else {
        let k = crate::steps::first_failure(steps);
        crate::steps::first_failure_ends_the_run(steps, k);
        crate::steps::run_reports_its_steps(steps, k + 1);
        assert(steps[k] == decrypt_step(shards[k], passwords[k]));
    }
}

/// Shards of one split, no fewer than its threshold, are opened in their order,
/// each under the password at its position, and each is reported with its id.
/// The first that is not opened ends the reconstruction with a decryption
/// failure that names it.
pub proof fn first_unopened_shard_is_named(
    files: Seq<StoredFileView>,
    shards: Seq<Shard>,
    passwords: Seq<Seq<char>>,
    k: int,
)
    requires
        files.len() == shards.len(),
        passwords.len() == files.len(),
        forall|i: int|
            0 <= i < files.len() ==> (#[trigger] files[i]).content == Ok::<Seq<u8>, ErrorView>(
                shards[i].encoding(),
            ),
        0 < shards.len() && shards.len() >= shards[0].threshold,
        forall|j: int|
            0 <= j < shards.len() ==> (#[trigger] shards[j]).threshold == shards[0].threshold
                && shards[j].share_count == shards[0].share_count,
        forall|j: int|
            0 <= j < passwords.len() ==> vstd::utf8::encode_utf8(#[trigger] passwords[j]).len()
                <= 0xFFFF_FFFF,
        0 <= k < shards.len(),
        forall|j: int|
            0 <= j < k ==> (crate::crypto::aes256gcm_open(
                crate::crypto::argon2id(passwords[j], (#[trigger] shards[j]).salt@, 19456, 2, 1),
                shards[j].nonce@,
                seq![shards[j].threshold, shards[j].share_count, shards[j].id],
                shards[j].sealed@,
            ) matches Some(value) && value.len() == 32 && crate::bytes::be_value(value)
                < crate::field::order()),
        crate::crypto::aes256gcm_open(
            crate::crypto::argon2id(passwords[k], shards[k].salt@, 19456, 2, 1),
            shards[k].nonce@,
            seq![shards[k].threshold, shards[k].share_count, shards[k].id],
            shards[k].sealed@,
        ) is None,
    ensures
        reconstruction(files, passwords).result == Err::<Seq<u8>, ErrorView>(
            ErrorView::Decrypt {
                id: shards[k].id,
                reason: ErrorView::Aead("aead::Error"@).message(),
            },
        ),
        reconstruction(files, passwords).events.len() == k + 1,
        forall|j: int|
            0 <= j <= k ==> #[trigger] reconstruction(files, passwords).events[j] == (
                shards[j].id,
                j < k,
            ),
{
    lemma_read(files, shards);
    assert forall|i: int| !first_mismatch(shards, i) by {
        if 0 <= i < shards.len() {
            assert(same_split(shards[0], shards[i]));
        }
    }
    let steps = decrypt_steps(shards, passwords);
    assert forall|j: int| 0 <= j <= k implies (#[trigger] steps[j]).events == seq![
        (shards[j].id, j < k),
    ] && (j < k ==> steps[j].result is Ok) by {
        crate::shard::shard_opens_under_its_password_alone(shards[j], passwords[j]);
    }
    crate::shard::shard_opens_under_its_password_alone(shards[k], passwords[k]);
    crate::steps::first_failure_ends_the_run(steps, k);
    crate::steps::run_reports_its_steps(steps, k + 1);
}

/// Shards of one split, no fewer than its threshold, that are all opened before
/// one whose value is no number below the order of the group, are reported, and
/// so is that one; the reconstruction ends there.
pub proof fn opened_value_must_be_below_the_order(
    files: Seq<StoredFileView>,
    shards: Seq<Shard>,
    passwords: Seq<Seq<char>>,
    values: Seq<Seq<u8>>,
    k: int,
)
    requires
        files.len() == shards.len(),
        passwords.len() == files.len(),
        values.len() == files.len(),
        forall|i: int|
            0 <= i < files.len() ==> (#[trigger] files[i]).content == Ok::<Seq<u8>, ErrorView>(
                shards[i].encoding(),
            ),
        0 < shards.len() && shards.len() >= shards[0].threshold,
        forall|j: int|
            0 <= j < shards.len() ==> (#[trigger] shards[j]).threshold == shards[0].threshold
                && shards[j].share_count == shards[0].share_count,
        forall|j: int|
            0 <= j < passwords.len() ==> vstd::utf8::encode_utf8(#[trigger] passwords[j]).len()
                <= 0xFFFF_FFFF,
        0 <= k < shards.len(),
        forall|j: int|
            0 <= j <= k ==> crate::crypto::aes256gcm_open(
                crate::crypto::argon2id(passwords[j], (#[trigger] shards[j]).salt@, 19456, 2, 1),
                shards[j].nonce@,
                seq![shards[j].threshold, shards[j].share_count, shards[j].id],
                shards[j].sealed@,
            ) == Some(values[j]),
        forall|j: int|
            0 <= j < k ==> (#[trigger] values[j]).len() == 32 && crate::bytes::be_value(values[j])
                < crate::field::order(),
        values[k].len() != 32 || crate::bytes::be_value(values[k]) >= crate::field::order(),
    ensures
        reconstruction(files, passwords).result == Err::<Seq<u8>, ErrorView>(
            ErrorView::InvalidShardFile(
                if values[k].len() != 32 {
                    "decrypted share has wrong length"@
                } else {
                    "invalid share value"@
                },
            ),
        ),
        reconstruction(files, passwords).events.len() == k + 1,
        forall|j: int|
            0 <= j <= k ==> #[trigger] reconstruction(files, passwords).events[j] == (
                shards[j].id,
                true,
            ),
{
    lemma_read(files, shards);
    assert forall|i: int| !first_mismatch(shards, i) by {
        if 0 <= i < shards.len() {
            assert(same_split(shards[0], shards[i]));
        }
    }
    let steps = decrypt_steps(shards, passwords);
    assert forall|j: int| 0 <= j <= k implies (#[trigger] steps[j]).events == seq![
        (shards[j].id, true),
    ] && (j < k ==> steps[j].result is Ok) by {
        crate::shard::shard_opens_under_its_password_alone(shards[j], passwords[j]);
        assert(j < k ==> values[j].len() == 32);
    }
    crate::shard::shard_opens_under_its_password_alone(shards[k], passwords[k]);
    crate::steps::first_failure_ends_the_run(steps, k);
    crate::steps::run_reports_its_steps(steps, k + 1);
}

/// Shards that are all opened are refused by the secret sharing if there is only
/// one, if one of them is numbered 0, or if two have the same number.
pub proof fn misnumbered_shards_are_refused(
    files: Seq<StoredFileView>,
    shards: Seq<Shard>,
    passwords: Seq<Seq<char>>,
    values: Seq<Seq<u8>>,
)
    requires
        files.len() == shards.len(),
        passwords.len() == files.len(),
        values.len() == files.len(),
        forall|i: int|
            0 <= i < files.len() ==> (#[trigger] files[i]).content == Ok::<Seq<u8>, ErrorView>(
                shards[i].encoding(),
            ),
        0 < shards.len() && shards.len() >= shards[0].threshold,
        forall|j: int|
            0 <= j < shards.len() ==> (#[trigger] shards[j]).threshold == shards[0].threshold
                && shards[j].share_count == shards[0].share_count,
        forall|j: int|
            0 <= j < passwords.len() ==> vstd::utf8::encode_utf8(#[trigger] passwords[j]).len()
                <= 0xFFFF_FFFF,
        forall|j: int|
            0 <= j < shards.len() ==> crate::crypto::aes256gcm_open(
                crate::crypto::argon2id(passwords[j], (#[trigger] shards[j]).salt@, 19456, 2, 1),
                shards[j].nonce@,
                seq![shards[j].threshold, shards[j].share_count, shards[j].id],
                shards[j].sealed@,
            ) == Some(values[j]) && values[j].len() == 32 && crate::bytes::be_value(values[j])
                < crate::field::order(),
    ensures
        ({
            let result = reconstruction(files, passwords).result;
            let zero = exists|i: int| 0 <= i < shards.len() && (#[trigger] shards[i]).id == 0;
            let repeated = exists|i: int, j: int|
                0 <= i < j < shards.len() && (#[trigger] shards[i]).id == (#[trigger] shards[j]).id;
            &&& shards.len() == 1 ==> result == Err::<Seq<u8>, ErrorView>(
                ErrorView::Vsss("Threshold cannot be less than 2"@),
            )
            &&& shards.len() > 1 && zero ==> result == Err::<Seq<u8>, ErrorView>(
                ErrorView::Vsss("An invalid share detected"@),
            )
            &&& shards.len() > 1 && !zero && repeated ==> result == Err::<Seq<u8>, ErrorView>(
                ErrorView::Vsss("Duplicate share detected"@),
            )
        }),
        reconstruction(files, passwords).events.len() == shards.len(),
        forall|j: int|
            0 <= j < shards.len() ==> #[trigger] reconstruction(files, passwords).events[j] == (
                shards[j].id,
                true,
            ),
{
    lemma_read(files, shards);
    assert forall|i: int| !first_mismatch(shards, i) by {
        if 0 <= i < shards.len() {
            assert(same_split(shards[0], shards[i]));
        }
    }
    let steps = decrypt_steps(shards, passwords);
    let points = Seq::new(
        shards.len(),
        |j: int|
            crate::sss::Point { x: shards[j].id as int, y: crate::bytes::be_value(values[j]) as int },
    );
    assert forall|j: int| 0 <= j < steps.len() implies (#[trigger] steps[j]).result == Ok::<
        crate::sss::Point,
        ErrorView,
    >(points[j]) && steps[j].events == seq![(shards[j].id, true)] by {
        crate::shard::shard_opens_under_its_password_alone(shards[j], passwords[j]);
    }
    crate::steps::lemma_run_all(steps, points);
    crate::steps::run_reports_its_steps(steps, steps.len() as int);
    assert(steps.take(steps.len() as int) =~= steps);
    if exists|i: int| 0 <= i < shards.len() && (#[trigger] shards[i]).id == 0 {
        let i = choose|i: int| 0 <= i < shards.len() && (#[trigger] shards[i]).id == 0;
        assert(points[i].x == 0);
    } else {
        assert forall|i: int| 0 <= i < points.len() implies (#[trigger] points[i]).x != 0 by {
            assert(shards[i].id != 0);
        }
    }
    if exists|i: int, j: int|
        0 <= i < j < shards.len() && (#[trigger] shards[i]).id == (#[trigger] shards[j]).id {
        let (i, j) = choose|i: int, j: int|
            0 <= i < j < shards.len() && (#[trigger] shards[i]).id == (#[trigger] shards[j]).id;
        assert(points[i].x == points[j].x);
    }
}

/// The first file that cannot be read, or that is no shard, ends the
/// reconstruction with its error, before any shard is opened.
pub proof fn unreadable_shard_file_is_reported(
    files: Seq<StoredFileView>,
    passwords: Seq<Seq<char>>,
    k: int,
)
    requires
        passwords.len() == files.len(),
        0 <= k < files.len(),
        forall|i: int|
            0 <= i < k ==> ((#[trigger] files[i]).content matches Ok(bytes) && bytes.len() == 83
                && bytes[0] == 0x48 && bytes[1] == 0x58 && bytes[2] == 0x31 && bytes[3] == 1),
        files[k].content matches Ok(bytes) ==> !(bytes.len() == 83 && bytes[0] == 0x48 && bytes[1]
            == 0x58 && bytes[2] == 0x31 && bytes[3] == 1),
    ensures
        reconstruction(files, passwords).events.len() == 0,
        match files[k].content {
            Ok(_) => reconstruction(files, passwords).result matches Err(
                ErrorView::InvalidShardFile(_),
            ),
            Err(error) => reconstruction(files, passwords).result == Err::<Seq<u8>, ErrorView>(
                error,
            ),
        },
{
    let steps = read_steps(files);
    assert forall|i: int| 0 <= i < k implies (#[trigger] steps[i]).result is Ok by {
        crate::shard::shard_parses_iff_well_formed(files[i].content->Ok_0);
    }
    if files[k].content is Ok {
        crate::shard::shard_parses_iff_well_formed(files[k].content->Ok_0);
    }
    crate::steps::first_failure_ends_the_run(steps, k);
}

/// Shards that are all opened, to the values of distinct shares numbered by
/// their ids, are all reported, and give the key whose polynomial passes
/// through the shares.
pub proof fn opened_shards_are_combined(
    files: Seq<StoredFileView>,
    shards: Seq<Shard>,
    passwords: Seq<Seq<char>>,
    values: Seq<Seq<u8>>,
    coeffs: Seq<int>,
)
    requires
        files.len() == shards.len(),
        passwords.len() == files.len(),
        values.len() == files.len(),
        forall|i: int|
            0 <= i < files.len() ==> (#[trigger] files[i]).content == Ok::<Seq<u8>, ErrorView>(
                shards[i].encoding(),
            ),
        2 <= shards.len() && shards.len() >= shards[0].threshold,
        forall|j: int|
            0 <= j < shards.len() ==> (#[trigger] shards[j]).threshold == shards[0].threshold
                && shards[j].share_count == shards[0].share_count && shards[j].id != 0,
        forall|i: int, j: int|
            0 <= i < j < shards.len() ==> (#[trigger] shards[i]).id != (#[trigger] shards[j]).id,
        forall|j: int|
            0 <= j < passwords.len() ==> vstd::utf8::encode_utf8(#[trigger] passwords[j]).len()
                <= 0xFFFF_FFFF,
        forall|j: int|
            0 <= j < shards.len() ==> crate::crypto::aes256gcm_open(
                crate::crypto::argon2id(passwords[j], (#[trigger] shards[j]).salt@, 19456, 2, 1),
                shards[j].nonce@,
                seq![shards[j].threshold, shards[j].share_count, shards[j].id],
                shards[j].sealed@,
            ) == Some(values[j]) && values[j].len() == 32 && crate::bytes::be_value(values[j])
                < crate::field::order(),
        1 <= coeffs.len() <= shards.len(),
        forall|j: int|
            0 <= j < shards.len() ==> crate::field::eval(coeffs, (#[trigger] shards[j]).id as int)
                % crate::field::order() == crate::bytes::be_value(values[j]),
    ensures
        reconstruction(files, passwords).events.len() == shards.len(),
        forall|j: int|
            0 <= j < shards.len() ==> #[trigger] reconstruction(files, passwords).events[j] == (
                shards[j].id,
                true,
            ),
        match reconstruction(files, passwords).result {
            Ok(key) => coeffs[0] % crate::field::order() != 0 && key == crate::bytes::be_bytes(
                (coeffs[0] % crate::field::order()) as nat,
                32,
            ),
            Err(error) => coeffs[0] % crate::field::order() == 0 && error is InvalidKey,
        },
{
    lemma_read(files, shards);
    assert forall|i: int| !first_mismatch(shards, i) by {
        if 0 <= i < shards.len() {
            assert(same_split(shards[0], shards[i]));
        }
    }
    let steps = decrypt_steps(shards, passwords);
    let points = Seq::new(
        shards.len(),
        |j: int|
            crate::sss::Point { x: shards[j].id as int, y: crate::bytes::be_value(values[j]) as int },
    );
    assert forall|j: int| 0 <= j < steps.len() implies (#[trigger] steps[j]).result == Ok::<
        crate::sss::Point,
        ErrorView,
    >(points[j]) && steps[j].events == seq![(shards[j].id, true)] by {
        crate::shard::shard_opens_under_its_password_alone(shards[j], passwords[j]);
    }
    crate::steps::lemma_run_all(steps, points);
    crate::steps::run_reports_its_steps(steps, steps.len() as int);
    assert(steps.take(steps.len() as int) =~= steps);
    assert forall|i: int, j: int| 0 <= i < j < points.len() implies (#[trigger] points[i]).x != (
    #[trigger] points[j]).x by {
        assert(shards[i].id != shards[j].id);
    }
    assert forall|j: int| 0 <= j < points.len() implies (#[trigger] points[j]).x != 0
        && points[j].valid() by {
        assert(shards[j].id != 0);
    }
    assert forall|j: int| 0 <= j < points.len() implies crate::field::eval(
        coeffs,
        (#[trigger] points[j]).x,
    ) % crate::field::order() == points[j].y by {
        assert(shards[j].id == points[j].x);
    }
    crate::sss::lemma_interpolation_is_unique(coeffs, points);
}

/// A signed transaction plus the metadata needed to broadcast or verify it.
#[derive(Debug, Clone)]
pub struct SignedOutput {
    /// Sender address (derived from the reconstructed key).
    pub from: [u8; 32],
    /// Ed25519 signature (also the Solana transaction id).
    pub signature: [u8; 64],
    /// Raw bincode transaction encoding as a base58 string.
    pub raw_base58: String,
}

impl From<crate::tx::SignedTx> for SignedOutput {
    fn from(signed: crate::tx::SignedTx) -> (output: SignedOutput) {
        SignedOutput {
            from: signed.from,
            signature: signed.signature,
            raw_base58: signed.raw_base58,
        }
    }
}

impl vstd::std_specs::convert::FromSpecImpl<crate::tx::SignedTx> for SignedOutput {
    open spec fn obeys_from_spec() -> bool {
        true
    }

    open spec fn from_spec(signed: crate::tx::SignedTx) -> SignedOutput {
        SignedOutput {
            from: signed.from,
            signature: signed.signature,
            raw_base58: signed.raw_base58,
        }
    }
}

/// Extract the 32-byte Ed25519 seed from a reconstructed key. The returned
/// buffer is wiped on drop.
pub fn key_seed(key: &SecretKey) -> (seed: Secret<32>)
    ensures
        seed@ == key@,
{
    Secret { bytes: key.to_bytes() }
}

/// What a signer made of the seed of a reconstructed key, or the error of the
/// reconstruction.
pub open spec fn signed_with_key<P, T, F: FnOnce([u8; 32], P) -> Result<T, Error>>(
    files: Seq<StoredFileView>,
    passwords: Seq<Seq<char>>,
    params: P,
    sign: F,
    signed: Result<T, Error>,
) -> bool {
    match reconstruction(files, passwords).result {
        Err(error) => signed is Err && signed->Err_0@ == error,
        Ok(key) => exists|seed: [u8; 32]|
            seed@ == key && #[trigger] call_ensures(sign, (seed, params), signed),
    }
}

/// Reconstruct the key from shards and hand its seed to a signer.
fn sign_from_shards<P, T, F: FnOnce([u8; 32], P) -> Result<T, Error>>(
    files: &[StoredFile],
    passwords: &[String],
    params: P,
    sign: F,
) -> (signed: Result<T, Error>)
    requires
        forall|seed: [u8; 32]| call_requires(sign, (seed, params)),
    ensures
        signed_with_key(
            crate::files::files_view(files@),
            crate::files::texts_view(passwords@),
            params,
            sign,
            signed,
        ),
        match reconstruction(
            crate::files::files_view(files@),
            crate::files::texts_view(passwords@),
        ).result {
            Err(error) => signed is Err && signed->Err_0@ == error,
            Ok(key) => exists|seed: [u8; 32]|
                seed@ == key && #[trigger] call_ensures(sign, (seed, params), signed),
        },
{
    let key = match reconstruct(files, passwords) {
        Ok(key) => key,
        Err(e) => return Err(e),
    };
    sign(key_seed(&key).bytes, params)
}

/// The output of a signed transaction.
pub open spec fn output_of(signed: Result<crate::tx::SignedTx, Error>) -> Result<
    SignedOutput,
    Error,
> {
    match signed {
        Ok(tx) => Ok(
            SignedOutput { from: tx.from, signature: tx.signature, raw_base58: tx.raw_base58 },
        ),
        Err(error) => Err(error),
    }
}

/// Reconstruct the key from shards and sign a transaction entirely offline
/// (Mode A). `sign` makes the signed transaction from the seed.
pub fn sign_transaction_from_shards<
    P,
    F: FnOnce([u8; 32], P) -> Result<crate::tx::SignedTx, Error>,
>(
    files: &[StoredFile],
    passwords: &[String],
    params: P,
    sign: F,
) -> (output: Result<SignedOutput, Error>)
    requires
        forall|seed: [u8; 32]| call_requires(sign, (seed, params)),
    ensures
        exists|signed: Result<crate::tx::SignedTx, Error>|
            output == output_of(signed) && #[trigger] signed_with_key(
                crate::files::files_view(files@),
                crate::files::texts_view(passwords@),
                params,
                sign,
                signed,
            ),
        match reconstruction(
            crate::files::files_view(files@),
            crate::files::texts_view(passwords@),
        ).result {
            Err(error) => output is Err && output->Err_0@ == error,
            Ok(key) => exists|seed: [u8; 32], signed: Result<crate::tx::SignedTx, Error>|
                seed@ == key && #[trigger] call_ensures(sign, (seed, params), signed) && (
                match signed {
                    Ok(tx) => output matches Ok(o) && o.from == tx.from && o.signature
                        == tx.signature && o.raw_base58 == tx.raw_base58,
                    Err(e) => output == Err::<SignedOutput, Error>(e),
                }),
        },
{
    match sign_from_shards(files, passwords, params, sign) {
        Ok(signed) => Ok(SignedOutput::from(signed)),
        Err(e) => Err(e),
    }
}

/// Reconstruct the key from shards and sign a Bitcoin Taproot transfer entirely
/// offline (Mode A). `sign` makes the signed transfer from the seed.
pub fn sign_bitcoin_transaction_from_shards<P, T, F: FnOnce([u8; 32], P) -> Result<T, Error>>(
    files: &[StoredFile],
    passwords: &[String],
    params: P,
    sign: F,
) -> (signed: Result<T, Error>)
    requires
        forall|seed: [u8; 32]| call_requires(sign, (seed, params)),
    ensures
        signed_with_key(
            crate::files::files_view(files@),
            crate::files::texts_view(passwords@),
            params,
            sign,
            signed,
        ),
        match reconstruction(
            crate::files::files_view(files@),
            crate::files::texts_view(passwords@),
        ).result {
            Err(error) => signed is Err && signed->Err_0@ == error,
            Ok(key) => exists|seed: [u8; 32]|
                seed@ == key && #[trigger] call_ensures(sign, (seed, params), signed),
        },
{
    sign_from_shards(files, passwords, params, sign)
}

/// Reconstruct the key from shards and sign a Cosmos `bank.MsgSend` entirely
/// offline (Mode A). `sign` makes the signed message from the seed.
pub fn sign_cosmos_transaction_from_shards<P, T, F: FnOnce([u8; 32], P) -> Result<T, Error>>(
    files: &[StoredFile],
    passwords: &[String],
    params: P,
    sign: F,
) -> (signed: Result<T, Error>)
    requires
        forall|seed: [u8; 32]| call_requires(sign, (seed, params)),
    ensures
        signed_with_key(
            crate::files::files_view(files@),
            crate::files::texts_view(passwords@),
            params,
            sign,
            signed,
        ),
        match reconstruction(
            crate::files::files_view(files@),
            crate::files::texts_view(passwords@),
        ).result {
            Err(error) => signed is Err && signed->Err_0@ == error,
            Ok(key) => exists|seed: [u8; 32]|
                seed@ == key && #[trigger] call_ensures(sign, (seed, params), signed),
        },
{
    sign_from_shards(files, passwords, params, sign)
}

/// A signing attempt over `message` ended in `signature`.
pub open spec fn mpc_signed(
    files: Seq<StoredFileView>,
    passwords: Seq<Seq<char>>,
    group_pub: Result<Seq<u8>, ErrorView>,
    message: Seq<u8>,
    signature: Result<crate::mpc::MpcSignature, Error>,
) -> bool {
    match crate::mpc::signers_of(files, passwords, group_pub).result {
        Err(error) => signature is Err && signature->Err_0@ == error,
        Ok((group, key_packages)) => crate::mpc::is_signing(
            crate::error::outcome(signature),
            group,
            message,
            key_packages,
        ),
    }
}

/// What was made of the signature of a transaction, or the error of signing it.
pub open spec fn assembled<
    P,
    A: FnOnce(P, [u8; 64], [u8; 32]) -> Result<crate::tx::SignedTx, Error>,
>(
    params: P,
    assemble: A,
    signature: Result<crate::mpc::MpcSignature, Error>,
    output: Result<SignedOutput, Error>,
) -> bool {
    match signature {
        Err(error) => output is Err && output->Err_0 == error,
        Ok(s) => exists|signed: Result<crate::tx::SignedTx, Error>|
            output == output_of(signed) && #[trigger] call_ensures(
                assemble,
                (params, s.signature, s.verifying_key),
                signed,
            ),
    }
}

/// Sign a transaction with a threshold FROST subset of share files (Mode B),
/// without ever reconstructing the signing key.
///
/// `message` gives the serialization of the transaction, exactly as Mode A
/// signs it; `assemble` puts the aggregated signature and the verifying key
/// into the transaction.
pub fn sign_transaction_from_mpc_shares<
    P,
    M: FnOnce(&P) -> Vec<u8>,
    A: FnOnce(P, [u8; 64], [u8; 32]) -> Result<crate::tx::SignedTx, Error>,
>(
    files: &[StoredFile],
    passwords: &[String],
    group_pub: &Result<Vec<u8>, String>,
    params: P,
    message: M,
    assemble: A,
) -> (output: Result<SignedOutput, Error>)
    requires
        call_requires(message, (&params,)),
        forall|signature: [u8; 64], verifying_key: [u8; 32]|
            call_requires(assemble, (params, signature, verifying_key)),
    ensures
        exists|bytes: Vec<u8>, signature: Result<crate::mpc::MpcSignature, Error>|
            {
                &&& call_ensures(message, (&params,), bytes)
                &&& #[trigger] mpc_signed(
                    crate::files::files_view(files@),
                    crate::files::texts_view(passwords@),
                    crate::files::content_outcome(*group_pub),
                    bytes@,
                    signature,
                )
                &&& assembled(params, assemble, signature, output)
            },
        match crate::mpc::signers_of(
            crate::files::files_view(files@),
            crate::files::texts_view(passwords@),
            crate::files::content_outcome(*group_pub),
        ).result {
            Err(error) => output is Err && output->Err_0@ == error,
            Ok((group, key_packages)) => exists|
                bytes: Vec<u8>,
                signature: Result<crate::mpc::MpcSignature, Error>,
            |
                #![trigger crate::mpc::is_signing(
                    crate::error::outcome(signature),
                    group,
                    bytes@,
                    key_packages,
                )]
                {
                    &&& call_ensures(message, (&params,), bytes)
                    &&& crate::mpc::is_signing(
                        crate::error::outcome(signature),
                        group,
                        bytes@,
                        key_packages,
                    )
                    &&& match signature {
                        Err(e) => output == Err::<SignedOutput, Error>(e),
                        Ok(s) => exists|signed: Result<crate::tx::SignedTx, Error>| #[trigger]
                            call_ensures(assemble, (params, s.signature, s.verifying_key), signed)
                                && (match signed {
                                Ok(tx) => output matches Ok(o) && o.from == tx.from && o.signature
                                    == tx.signature && o.raw_base58 == tx.raw_base58,
                                Err(e) => output == Err::<SignedOutput, Error>(e),
                            }),
                    }
                },
        },
{
    let bytes = message(&params);
    let mut events: Vec<(u8, bool)> = Vec::new();
    let signature = crate::mpc::mpc_sign(
        files,
        passwords,
        group_pub,
        bytes.as_slice(),
        &mut events,
    );
    assert(mpc_signed(
        crate::files::files_view(files@),
        crate::files::texts_view(passwords@),
        crate::files::content_outcome(*group_pub),
        bytes@,
        signature,
    ));
    match signature {
        Ok(crate::mpc::MpcSignature { signature, verifying_key }) => {
            match assemble(params, signature, verifying_key) {
                Ok(signed) => Ok(SignedOutput::from(signed)),
                Err(e) => Err(e),
            }
        },
        Err(e) => Err(e),
    }
}

} // verus!
