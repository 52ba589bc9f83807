//! Shamir's Secret Sharing over the secp256k1 scalar field.
use k256::elliptic_curve::ff::PrimeField;
use k256::Scalar;
use vsss_rs::{DefaultShare, IdentifierPrimeField, ValuePrimeField};
use vstd::prelude::*;
use vstd::string::*;

use crate::error::{Error, ErrorView};
use crate::key::SecretKey;
use crate::secret::{wipe_array, Secret};

verus! {

/// One share of a secret: a point on the sharing polynomial. Both coordinates
/// are scalars, as 32 big-endian bytes. The y-coordinate is overwritten when
/// the share is dropped.
pub struct Share {
    /// The x-coordinate: the share's number, from 1 to 255.
    pub identifier: [u8; 32],
    /// The y-coordinate.
    pub value: [u8; 32],
}

impl Drop for Share {
    /// Overwrites the y-coordinate.
    fn drop(&mut self)
        ensures
            forall|i: int| 0 <= i < 32 ==> final(self).value@[i] == 0,
        opens_invariants none
        no_unwind
    {
        wipe_array(&mut self.value);
    }
}

/// A point in the plane of a polynomial.
#[verifier::ext_equal]
pub ghost struct Point {
    pub x: int,
    pub y: int,
}

impl View for Share {
    type V = Point;

    open spec fn view(&self) -> Point {
        Point {
            x: crate::bytes::be_value(self.identifier@) as int,
            y: crate::bytes::be_value(self.value@) as int,
        }
    }
}

impl Point {
    /// The point can be a share: its x is a byte and its y a scalar.
    pub open spec fn valid(self) -> bool {
        0 <= self.x <= 255 && 0 <= self.y < crate::field::order()
    }
}

/// The points of shares.
pub open spec fn points(shares: Seq<Share>) -> Seq<Point> {
    shares.map_values(|s: Share| s@)
}

/// All the points can be shares.
pub open spec fn all_valid(points: Seq<Point>) -> bool {
    forall|i: int| 0 <= i < points.len() ==> (#[trigger] points[i]).valid()
}

/// The points lie on the polynomial.
pub open spec fn on_polynomial(coeffs: Seq<int>, points: Seq<Point>) -> bool {
    forall|i: int|
        0 <= i < points.len() ==> crate::field::eval(coeffs, (#[trigger] points[i]).x)
            % crate::field::order() == points[i].y
}

/// The points are those numbered from 1 on of a secret, on the sharing
/// polynomial `coeffs`: as many coefficients as the threshold, of which the
/// lowest is the secret.
pub open spec fn shares_secret(
    coeffs: Seq<int>,
    secret: int,
    threshold: nat,
    points: Seq<Point>,
) -> bool {
    &&& coeffs.len() == threshold
    &&& coeffs[0] == secret
    &&& on_polynomial(coeffs, points)
    &&& all_valid(points)
    &&& forall|i: int| 0 <= i < points.len() ==> (#[trigger] points[i]).x == i + 1
}

/// `vsss_rs::shamir::split_secret` over `k256::Scalar`, with the operating
/// system's random numbers. It fails on a limit below the threshold and on a
/// threshold below 2. The shares it makes are numbered from 1 on and lie on a
/// polynomial with `threshold` coefficients, of which the lowest is the secret
/// and the others are left to chance.
#[verifier::external_body]
fn shamir_split(secret: &[u8; 32], threshold: usize, limit: usize) -> (shares: Result<
    Vec<Share>,
    String,
>)
    requires
        crate::bytes::be_value(secret@) < crate::field::order(),
        limit <= 255,
    ensures
        limit < threshold ==> shares is Err && shares->Err_0@ == "Limit is less than threshold"@,
        threshold <= limit && threshold < 2 ==> shares is Err && shares->Err_0@
            == "Threshold cannot be less than 2"@,
        2 <= threshold <= limit ==> shares is Ok && shares->Ok_0@.len() == limit && exists|
            coeffs: Seq<int>,
        |
            shares_secret(
                coeffs,
                crate::bytes::be_value(secret@) as int,
                threshold as nat,
                points(shares->Ok_0@),
            ),
{
    let secret = IdentifierPrimeField(Scalar::from_repr((*secret).into()).unwrap());
    vsss_rs::shamir::split_secret::<
        DefaultShare<IdentifierPrimeField<Scalar>, ValuePrimeField<Scalar>>,
    >(threshold, limit, &secret, rand::rngs::OsRng)
        .map_err(|e| e.to_string())
        .map(|shares| shares.iter().map(|s| Share {
            identifier: s.identifier.to_repr().into(),
            value: s.value.to_repr().into(),
        }).collect())
}

/// Some point has x = 0.
pub open spec fn has_zero_identifier(points: Seq<Point>) -> bool {
    exists|i: int| 0 <= i < points.len() && (#[trigger] points[i]).x == 0
}

/// Two points have the same x.
pub open spec fn has_duplicate_identifier(points: Seq<Point>) -> bool {
    exists|i: int, j: int|
        0 <= i < j < points.len() && (#[trigger] points[i]).x == (#[trigger] points[j]).x
}

/// The polynomial passes through the points and has as many coefficients as
/// there are points.
pub open spec fn interpolates(coeffs: Seq<int>, points: Seq<Point>) -> bool {
    coeffs.len() == points.len() && on_polynomial(coeffs, points)
}

/// Fewer than two shares, then a share numbered 0, then two shares with the
/// same number are errors; otherwise the value at zero of a polynomial through
/// the shares comes out.
pub open spec fn combines_to(points: Seq<Point>, secret: Result<[u8; 32], String>) -> bool {
    if points.len() < 2 {
        secret is Err && secret->Err_0@ == "Threshold cannot be less than 2"@
    } else if has_zero_identifier(points) {
        secret is Err && secret->Err_0@ == "An invalid share detected"@
    } else if has_duplicate_identifier(points) {
        secret is Err && secret->Err_0@ == "Duplicate share detected"@
    } else {
        secret is Ok && exists|coeffs: Seq<int>|
            interpolates(coeffs, points) && crate::bytes::be_value(secret->Ok_0@) == coeffs[0]
                % crate::field::order()
    }
}

/// `vsss_rs::ReadableShareSet::combine` over `k256::Scalar`. It fails on fewer
/// than two shares, then on a share numbered 0, then on two shares with the
/// same number. Otherwise it gives the value at zero of a polynomial through
/// the shares with no more coefficients than shares.
#[verifier::external_body]
fn shamir_combine(shares: &Vec<Share>) -> (secret: Result<[u8; 32], String>)
    requires
        all_valid(points(shares@)),
    ensures
        combines_to(points(shares@), secret),
{
    let set: Vec<DefaultShare<IdentifierPrimeField<Scalar>, ValuePrimeField<Scalar>>> = shares
        .iter()
        .map(|s| DefaultShare {
            identifier: Scalar::from_repr(s.identifier.into()).unwrap().into(),
            value: Scalar::from_repr(s.value.into()).unwrap().into(),
        })
        .collect();
    vsss_rs::ReadableShareSet::combine(&set)
        .map(|secret| secret.to_repr().into())
        .map_err(|e| e.to_string())
}

/// `k256::Scalar::from_repr`: it takes the big-endian bytes of a number below
/// the order, and no others; `to_repr` gives the same bytes back.
#[verifier::external_body]
pub(crate) fn scalar_from_repr(bytes: &[u8; 32]) -> (scalar: Option<[u8; 32]>)
    ensures
        scalar is Some <==> crate::bytes::be_value(bytes@) < crate::field::order(),
        scalar matches Some(repr) ==> repr@ == bytes@,
{
    Option::<Scalar>::from(Scalar::from_repr((*bytes).into())).map(
        |scalar| scalar.to_repr().into(),
    )
}

/// `k256::Scalar::from` on a 64-bit number: the scalar is that number.
#[verifier::external_body]
pub(crate) fn scalar_from_u64(n: u64) -> (repr: [u8; 32])
    ensures
        crate::bytes::be_value(repr@) == n,
{
    Scalar::from(n).to_repr().into()
}

/// The shares are those that splitting the secret drew, on the polynomial that
/// was drawn for it.
pub closed spec fn are_drawn(
    shares: Vec<Share>,
    secret: Seq<u8>,
    threshold: u8,
    share_count: u8,
) -> bool {
    exists|bytes: [u8; 32]|
        bytes@ == secret && #[trigger] call_ensures(
            shamir_split,
            (&bytes, threshold as usize, share_count as usize),
            Ok::<Vec<Share>, String>(shares),
        )
}

/// Shares are drawn only if splitting the secret with these parameters gave
/// them.
proof fn drawn_shares_come_from_the_split(
    shares: Vec<Share>,
    secret: Seq<u8>,
    threshold: u8,
    share_count: u8,
)
    ensures
        are_drawn(shares, secret, threshold, share_count) <==> exists|bytes: [u8; 32]|
            bytes@ == secret && #[trigger] call_ensures(
                shamir_split,
                (&bytes, threshold as usize, share_count as usize),
                Ok::<Vec<Share>, String>(shares),
            ),
{
}

/// Splits a key into `share_count` shares, of which any `threshold` determine
/// it. The shares are those that were drawn.
pub fn split(key: &SecretKey, threshold: u8, share_count: u8) -> (shares: Result<
    Vec<Share>,
    Error,
>)
    ensures
        share_count < threshold ==> shares is Err && shares->Err_0@ == ErrorView::Vsss(
            "Limit is less than threshold"@,
        ),
        threshold <= share_count && threshold < 2 ==> shares is Err && shares->Err_0@
            == ErrorView::Vsss("Threshold cannot be less than 2"@),
        2 <= threshold <= share_count ==> shares is Ok && shares->Ok_0@.len() == share_count
            && exists|coeffs: Seq<int>|
            shares_secret(
                coeffs,
                crate::bytes::be_value(key@) as int,
                threshold as nat,
                points(shares->Ok_0@),
            ),
        shares is Ok <==> 2 <= threshold <= share_count,
        shares matches Ok(drawn) ==> are_drawn(drawn, key@, threshold, share_count),
{
    let secret = Secret { bytes: key.to_bytes() };
    match shamir_split(&secret.bytes, threshold as usize, share_count as usize) {
        Ok(shares) => {
            proof {
                let number = crate::bytes::be_value(secret@) as int;
                let coeffs = choose|coeffs: Seq<int>|
                    shares_secret(coeffs, number, threshold as nat, points(shares@));
                assert(shares_secret(coeffs, number, threshold as nat, points(shares@)));
            }
            Ok(shares)
        },
        Err(e) => Err(Error::Vsss(e)),
    }
}

/// The secret that points determine: the value at zero of the polynomial
/// through them. There is one such value
/// ([`lemma_interpolation_is_unique`]).
pub open spec fn shared_secret(points: Seq<Point>) -> int {
    (choose|coeffs: Seq<int>| interpolates(coeffs, points))[0] % crate::field::order()
}

/// The outcome of combining shares: the bytes of the key, or the error.
pub open spec fn combine_outcome(points: Seq<Point>) -> Result<Seq<u8>, ErrorView> {
    if points.len() < 2 {
        Err(ErrorView::Vsss("Threshold cannot be less than 2"@))
    } else if has_zero_identifier(points) {
        Err(ErrorView::Vsss("An invalid share detected"@))
    } else if has_duplicate_identifier(points) {
        Err(ErrorView::Vsss("Duplicate share detected"@))
    } else if shared_secret(points) == 0 {
        Err(ErrorView::InvalidKey("crypto error"@))
    } else {
        Ok(crate::bytes::be_bytes(shared_secret(points) as nat, 32))
    }
}

/// Any polynomial with no more coefficients than there are points that passes
/// through points with different x has the shared secret as its value at zero.
pub proof fn lemma_interpolation_is_unique(coeffs: Seq<int>, points: Seq<Point>)
    requires
        1 <= coeffs.len() <= points.len(),
        on_polynomial(coeffs, points),
        !has_duplicate_identifier(points),
        all_valid(points),
    ensures
        coeffs[0] % crate::field::order() == shared_secret(points),
{
    let padded = coeffs + Seq::new((points.len() - coeffs.len()) as nat, |i: int| 0int);
    assert(interpolates(padded, points)) by {
        assert forall|i: int| 0 <= i < points.len() implies crate::field::eval(
            padded,
            (#[trigger] points[i]).x,
        ) % crate::field::order() == points[i].y by {
            crate::field::lemma_eval_padded(
                coeffs,
                (points.len() - coeffs.len()) as nat,
                points[i].x,
            );
        }
    }
    let chosen = choose|c: Seq<int>| interpolates(c, points);
    let xs = points.map_values(|p: Point| p.x);
    assert(crate::field::distinct(xs)) by {
        assert forall|i: int, j: int| 0 <= i < j < xs.len() implies xs[i] != xs[j] by {
            assert(points[i].x != points[j].x);
        }
    }
    assert forall|i: int| 0 <= i < xs.len() implies 0 <= #[trigger] xs[i] <= 255 by {
        assert(points[i].valid());
    }
    assert forall|i: int| 0 <= i < xs.len() implies crate::field::eval(coeffs, #[trigger] xs[i])
        % crate::field::order() == crate::field::eval(chosen, xs[i]) % crate::field::order() by {
        assert(xs[i] == points[i].x);
    }
    crate::field::lemma_polynomial_unique(coeffs, chosen, xs, 0);
    crate::field::lemma_eval_at_zero(coeffs);
    crate::field::lemma_eval_at_zero(chosen);
}

/// Any threshold of the shares of a secret, or more, combine to it.
pub proof fn threshold_determines_secret(
    coeffs: Seq<int>,
    key: Seq<u8>,
    threshold: nat,
    all: Seq<Point>,
    picked: Seq<int>,
)
    requires
        2 <= threshold <= picked.len(),
        crate::key::valid_key(key),
        shares_secret(coeffs, crate::bytes::be_value(key) as int, threshold, all),
        crate::field::distinct(picked),
        forall|k: int| 0 <= k < picked.len() ==> 0 <= #[trigger] picked[k] < all.len(),
    ensures
        combine_outcome(picked.map_values(|i: int| all[i])) == Ok::<Seq<u8>, ErrorView>(key),
{
    let secret = crate::bytes::be_value(key);
    let some = picked.map_values(|i: int| all[i]);
    assert forall|k: int| 0 <= k < some.len() implies (#[trigger] some[k]).valid() && some[k].x
        == picked[k] + 1 && crate::field::eval(coeffs, some[k].x) % crate::field::order()
        == some[k].y by {
        assert(some[k] == all[picked[k]]);
        assert(all[picked[k]].valid());
    }
    assert forall|i: int, j: int| 0 <= i < j < some.len() implies (#[trigger] some[i]).x != (
    #[trigger] some[j]).x by {
        assert(picked[i] != picked[j]);
    }
    lemma_interpolation_is_unique(coeffs, some);
    vstd::arithmetic::div_mod::lemma_small_mod(secret, crate::field::order() as nat);
    crate::bytes::lemma_be_bytes_of_value(key);
}

/// The shares are points of the polynomial, which has as many coefficients as
/// there are shares.
pub open spec fn lies_on(coeffs: Seq<int>, shares: Seq<Share>) -> bool {
    &&& coeffs.len() == shares.len()
    &&& forall|i: int|
        0 <= i < shares.len() ==> crate::field::eval(coeffs, (#[trigger] shares[i])@.x)
            % crate::field::order() == shares[i]@.y
}

/// A polynomial through the shares has the value `secret` at zero.
pub open spec fn passes_through(shares: Seq<Share>, secret: int) -> bool {
    exists|coeffs: Seq<int>| #[trigger]
        lies_on(coeffs, shares) && coeffs[0] % crate::field::order() == secret
}

/// Combines shares into the key that they determine.
pub fn combine(shares: &Vec<Share>) -> (key: Result<SecretKey, Error>)
    requires
        all_valid(points(shares@)),
    ensures
        crate::error::outcome(key) == combine_outcome(points(shares@)),
        match key {
            Ok(k) => {
                &&& shares@.len() >= 2
                &&& forall|i: int| 0 <= i < shares@.len() ==> (#[trigger] shares@[i])@.x != 0
                &&& forall|i: int, j: int|
                    0 <= i < j < shares@.len() ==> (#[trigger] shares@[i])@.x != (
                    #[trigger] shares@[j])@.x
                &&& passes_through(shares@, crate::bytes::be_value(k@) as int)
            },
            Err(e) => {
                ||| shares@.len() < 2 && e@ == ErrorView::Vsss("Threshold cannot be less than 2"@)
                ||| shares@.len() >= 2 && (exists|i: int|
                    0 <= i < shares@.len() && (#[trigger] shares@[i])@.x == 0) && e@ == ErrorView::Vsss("An invalid share detected"@)
                ||| (forall|i: int| 0 <= i < shares@.len() ==> (#[trigger] shares@[i])@.x != 0) && (
                exists|i: int, j: int|
                    0 <= i < j < shares@.len() && (#[trigger] shares@[i])@.x == (
                    #[trigger] shares@[j])@.x) && e@ == ErrorView::Vsss("Duplicate share detected"@)
                ||| shares@.len() >= 2 && (forall|i: int|
                    0 <= i < shares@.len() ==> (#[trigger] shares@[i])@.x != 0) && (forall|
                    i: int,
                    j: int,
                |
                    0 <= i < j < shares@.len() ==> (#[trigger] shares@[i])@.x != (
                    #[trigger] shares@[j])@.x) && passes_through(shares@, 0) && e@ == ErrorView::InvalidKey("crypto error"@)
            },
        },
{
    let ghost all = points(shares@);
    proof {
        assert forall|i: int| 0 <= i < all.len() implies #[trigger] all[i] == shares@[i]@ by {}
    }
    match shamir_combine(shares) {
        Ok(bytes) => {
            let secret = Secret { bytes };
            proof {
                let coeffs = choose|coeffs: Seq<int>|
                    interpolates(coeffs, points(shares@)) && crate::bytes::be_value(secret@) == coeffs[0]
                        % crate::field::order();
                lemma_interpolation_is_unique(coeffs, points(shares@));
                crate::bytes::lemma_be_bytes_of_value(secret@);
                assert(lies_on(coeffs, shares@)) by {
                    assert forall|i: int| 0 <= i < shares@.len() implies crate::field::eval(
                        coeffs,
                        (#[trigger] shares@[i])@.x,
                    ) % crate::field::order() == shares@[i]@.y by {
                        assert(all[i] == shares@[i]@);
                    }
                }
                assert forall|i: int| 0 <= i < shares@.len() implies (#[trigger] shares@[i])@.x
                    != 0 by {
                    assert(all[i].x == shares@[i]@.x);
                }
                assert forall|i: int, j: int| 0 <= i < j < shares@.len() implies (
                #[trigger] shares@[i])@.x != (#[trigger] shares@[j])@.x by {
                    assert(all[i].x == shares@[i]@.x && all[j].x == shares@[j]@.x);
                }
            }
            SecretKey::from_bytes(&secret.bytes)
        },
        Err(e) => {
            proof {
                if has_zero_identifier(all) {
                    let i = choose|i: int| 0 <= i < all.len() && (#[trigger] all[i]).x == 0;
                    assert(shares@[i]@.x == 0);
                }
                if !has_zero_identifier(all) {
                    assert forall|i: int| 0 <= i < shares@.len() implies (#[trigger] shares@[i])@.x
                        != 0 by {
                        assert(all[i].x == shares@[i]@.x);
                    }
                }
                if has_duplicate_identifier(all) {
                    let (i, j) = choose|i: int, j: int|
                        0 <= i < j < all.len() && (#[trigger] all[i]).x == (#[trigger] all[j]).x;
                    assert(shares@[i]@.x == shares@[j]@.x);
                }
            }
            Err(Error::Vsss(e))
        },
    }
}

} // verus!
