//! Core air-gapped FROST protocol (Mode B over HX3 frames).
//!
//! The coordinator and participants exchange HX3 messages without sharing a
//! network. Every artifact is bound to a 16-byte session.
//!
//! Security invariants enforced here (the frame layer enforces structural ones
//! like magic/version/checksum/session consistency):
//! * a signing package only builds from commitments that (a) meet the
//!   threshold, (b) have distinct ids, and (c) are members of the group named
//!   in the request;
//! * a participant only produces a signature share if the signing package's
//!   message equals the request it accepted and the package contains exactly
//!   its own commitment;
//! * the aggregated signature is verified against the group verifying key and
//!   only then returned;
//! * signature shares are never combined with a package from a different
//!   signing attempt (the coordinator binds every input to one session). The
//!   session comes with the frames; what is shown here is that a participant
//!   signs only a package with its own commitment of this attempt, that a
//!   signature only comes out of shares from exactly those who committed in the
//!   package, and that it verifies. That shares made for another package do not
//!   aggregate is FROST's to refuse.
//!
//! The commitments of any threshold of the participants of one split are
//! gathered, and each may sign the package: it gets a signature share or FROST's
//! group error. The shares that they make for it are finalized to a signature.
use vstd::prelude::*;
use vstd::string::*;

use crate::bytes::{push_le16, push_le32, read_le16, read_le32, same_bytes, vec_at};
use crate::error::{Error, ErrorView};
use crate::files::{StoredFile, StoredFileView};
use crate::frost::{KeyPackage, Quorum, SigningNonces, SigningPackage};
use crate::idmap::IdMap;
use crate::mpc::{FrostShare, MpcSignature, MpcSignatureView};
use crate::steps::Step;
use crate::text::decimal;

verus! {

/// Length of a session, in bytes.
pub const SESSION_LEN: usize = 16;

/// A signing request offered by the coordinator to the participants: the
/// message to sign, the group that must sign it, and the session binding every
/// artifact of this attempt.
#[derive(Debug, Clone, PartialEq, Eq)]
pub struct RequestData {
    /// Identifies this signing attempt; every frame of every related artifact
    /// carries it.
    pub session: [u8; SESSION_LEN],
    /// Encoded group public key package (the non-secret `group.pub`).
    pub group_pub: Vec<u8>,
    /// The message participants are asked to sign.
    pub message: Vec<u8>,
}

/// A [`RequestData`] as a mathematical value.
#[verifier::ext_equal]
pub ghost struct RequestView {
    pub session: Seq<u8>,
    pub group_pub: Seq<u8>,
    pub message: Seq<u8>,
}

impl View for RequestData {
    type V = RequestView;

    open spec fn view(&self) -> RequestView {
        RequestView {
            session: self.session@,
            group_pub: self.group_pub@,
            message: self.message@,
        }
    }
}

impl RequestView {
    /// The signing-request payload: both parts, each behind its length.
    pub open spec fn payload(self) -> Seq<u8> {
        crate::bytes::le32(self.group_pub.len()) + self.group_pub + crate::bytes::le32(
            self.message.len(),
        ) + self.message
    }
}

/// How far apart two numbers are.
pub open spec fn distance(a: nat, b: nat) -> nat {
    if a < b {
        (b - a) as nat
    } else {
        (a - b) as nat
    }
}

/// The outcome of parsing a signing-request payload.
pub open spec fn request_outcome(session: Seq<u8>, payload: Seq<u8>) -> Result<
    RequestView,
    ErrorView,
> {
    let group_end = 4 + crate::bytes::le_value(payload.subrange(0, 4));
    let message_start = group_end + 4;
    let message_end = message_start + crate::bytes::le_value(
        payload.subrange(group_end as int, message_start as int),
    );
    if payload.len() < 8 {
        Err(ErrorView::Hx3("signing request payload is truncated"@))
    } else if group_end > usize::MAX {
        Err(ErrorView::Hx3("group length overflow"@))
    } else if message_start > usize::MAX {
        Err(ErrorView::Hx3("message length overflow"@))
    } else if message_start > payload.len() {
        Err(ErrorView::Hx3("signing request payload is truncated"@))
    } else if message_end > usize::MAX {
        Err(ErrorView::Hx3("message length overflow"@))
    } else if message_end != payload.len() {
        Err(
            ErrorView::Hx3(
                "signing request payload has "@ + crate::text::decimal_text(
                    distance(payload.len(), message_end),
                ) + " trailing/truncated bytes"@,
            ),
        )
    } else {
        Ok(
            RequestView {
                session,
                group_pub: payload.subrange(4, group_end as int),
                message: payload.subrange(message_start as int, message_end as int),
            },
        )
    }
}

impl RequestData {
    /// Serialize to the signing-request payload.
    pub fn to_payload(&self) -> (payload: Vec<u8>)
        ensures
            payload@ == self@.payload(),
    {
        let mut out: Vec<u8> = Vec::new();
        push_le32(&mut out, self.group_pub.len());
        out.extend_from_slice(self.group_pub.as_slice());
        push_le32(&mut out, self.message.len());
        out.extend_from_slice(self.message.as_slice());
        assert(out@ =~= self@.payload());
        out
    }

    /// Parse a signing-request payload. `session` comes from the HX3 frames
    /// that carried the payload, so the two can never disagree.
    pub fn from_payload(session: [u8; SESSION_LEN], payload: &[u8]) -> (request: Result<
        RequestData,
        Error,
    >)
        ensures
            crate::error::outcome(request) == request_outcome(session@, payload@),
    {
        if payload.len() < 8 {
            return Err(Error::Hx3("signing request payload is truncated".to_owned()));
        }
        let group_len: usize = read_le32(payload, 0);
        let group_end: usize = match 4usize.checked_add(group_len) {
            Some(end) => end,
            None => return Err(Error::Hx3("group length overflow".to_owned())),
        };
        let message_start: usize = match group_end.checked_add(4) {
            Some(start) => start,
            None => return Err(Error::Hx3("message length overflow".to_owned())),
        };
        if message_start > payload.len() {
            return Err(Error::Hx3("signing request payload is truncated".to_owned()));
        }
        let message_len: usize = read_le32(payload, group_end);
        let message_end: usize = match message_start.checked_add(message_len) {
            Some(end) => end,
            None => return Err(Error::Hx3("message length overflow".to_owned())),
        };
        if message_end != payload.len() {
            let apart: usize = if payload.len() < message_end {
                message_end - payload.len()
            } else {
                payload.len() - message_end
            };
            return Err(
                Error::Hx3(
                    "signing request payload has ".to_owned().concat(
                        decimal(apart).as_str(),
                    ).concat(" trailing/truncated bytes"),
                ),
            );
        }
        Ok(
            RequestData {
                session,
                group_pub: vec_at(payload, 4, group_end),
                message: vec_at(payload, message_start, message_end),
            },
        )
    }
}

/// A request's payload parses as that request, if its lengths fit their fields
/// and the payload fits in memory.
pub proof fn request_round_trip(request: RequestView)
    requires
        request.group_pub.len() < 0x1_0000_0000,
        request.message.len() < 0x1_0000_0000,
        request.payload().len() <= usize::MAX,
    ensures
        request_outcome(request.session, request.payload()) == Ok::<RequestView, ErrorView>(
            request,
        ),
{
    let payload = request.payload();
    let group_end = 4 + request.group_pub.len() as int;
    assert(payload.subrange(0, 4) =~= crate::bytes::le32(request.group_pub.len()));
    crate::bytes::lemma_le32_value(request.group_pub.len());
    assert(payload.subrange(4, group_end) =~= request.group_pub);
    assert(payload.subrange(group_end, group_end + 4) =~= crate::bytes::le32(
        request.message.len(),
    ));
    crate::bytes::lemma_le32_value(request.message.len());
    assert(payload.subrange(group_end + 4, payload.len() as int) =~= request.message);
}

/// A request that parses has the payload it was parsed from, and the session
/// that it was parsed with.
pub proof fn request_parse_is_exact(session: Seq<u8>, payload: Seq<u8>)
    ensures
        request_outcome(session, payload) matches Ok(request) ==> request.session == session
            && request.payload() == payload,
{
    if let Ok(request) = request_outcome(session, payload) {
        let group_end = 4 + crate::bytes::le_value(payload.subrange(0, 4)) as int;
        crate::bytes::lemma_le32_of_value(payload.subrange(0, 4));
        crate::bytes::lemma_le32_of_value(payload.subrange(group_end, group_end + 4));
        assert(request.payload() =~= payload);
    }
}

/// A request's payload is the length of the group package as four little-endian
/// bytes, the package, the length of the message likewise, and the message.
pub proof fn request_layout(request: RequestView)
    ensures
        ({
            let (g, m) = (request.group_pub.len() as int, request.message.len() as int);
            let payload = request.payload();
            &&& payload.len() == 8 + g + m
            &&& payload[0] + 256 * payload[1] + 65536 * payload[2] + 16777216 * payload[3] == g
                % 0x1_0000_0000
            &&& payload.subrange(4, 4 + g) == request.group_pub
            &&& payload[4 + g] + 256 * payload[5 + g] + 65536 * payload[6 + g] + 16777216
                * payload[7 + g] == m % 0x1_0000_0000
            &&& payload.subrange(8 + g, 8 + g + m) == request.message
        }),
{
    let (g, m) = (request.group_pub.len() as int, request.message.len() as int);
    let payload = request.payload();
    crate::bytes::lengths_are_little_endian(request.group_pub.len());
    crate::bytes::lengths_are_little_endian(request.message.len());
    assert(payload.subrange(0, 4) =~= crate::bytes::le32(request.group_pub.len()));
    assert(payload.subrange(4, 4 + g) =~= request.group_pub);
    assert(payload.subrange(4 + g, 8 + g) =~= crate::bytes::le32(request.message.len()));
    assert(payload.subrange(8 + g, 8 + g + m) =~= request.message);
    assert(forall|i: int| 0 <= i < 4 ==> payload[i] == payload.subrange(0, 4)[i]);
    assert(payload[4 + g] == payload.subrange(4 + g, 8 + g)[0]);
    assert(payload[5 + g] == payload.subrange(4 + g, 8 + g)[1]);
    assert(payload[6 + g] == payload.subrange(4 + g, 8 + g)[2]);
    assert(payload[7 + g] == payload.subrange(4 + g, 8 + g)[3]);
}

/// A payload that fits in memory parses as a request if and only if it is made
/// of two parts, each behind its length, with nothing behind them. Whatever does
/// not parse is a frame error.
pub proof fn request_parses_iff_well_formed(session: Seq<u8>, payload: Seq<u8>)
    requires
        payload.len() <= usize::MAX,
    ensures
        ({
            let g = payload[0] + 256 * payload[1] + 65536 * payload[2] + 16777216 * payload[3];
            let m = payload[4 + g] + 256 * payload[5 + g] + 65536 * payload[6 + g] + 16777216
                * payload[7 + g];
            &&& request_outcome(session, payload) is Ok <==> 8 <= payload.len() && 8 + g
                <= payload.len() && payload.len() == 8 + g + m
            &&& request_outcome(session, payload) matches Ok(request) ==> request.session == session
                && request.group_pub == payload.subrange(4, 4 + g) && request.message
                == payload.subrange(8 + g, payload.len() as int)
            &&& payload.len() < 8 || payload.len() < 8 + g <= usize::MAX ==> request_outcome(
                session,
                payload,
            ) == Err::<RequestView, ErrorView>(
                ErrorView::Hx3("signing request payload is truncated"@),
            )
            &&& 8 + g <= payload.len() && payload.len() < 8 + g + m <= usize::MAX
                ==> request_outcome(session, payload) == Err::<RequestView, ErrorView>(
                ErrorView::Hx3(
                    "signing request payload has "@ + crate::text::decimal_text(
                        (8 + g + m - payload.len()) as nat,
                    ) + " trailing/truncated bytes"@,
                ),
            )
            &&& 8 <= payload.len() && 8 + g + m < payload.len() ==> request_outcome(
                session,
                payload,
            ) == Err::<RequestView, ErrorView>(
                ErrorView::Hx3(
                    "signing request payload has "@ + crate::text::decimal_text(
                        (payload.len() - (8 + g + m)) as nat,
                    ) + " trailing/truncated bytes"@,
                ),
            )
        }),
        request_outcome(session, payload) matches Err(error) ==> error is Hx3,
{
    if 8 <= payload.len() {
        let length = payload.subrange(0, 4);
        crate::bytes::lemma_le32_of_value(length);
        let g = payload[0] + 256 * payload[1] + 65536 * payload[2] + 16777216 * payload[3];
        assert(length[0] == payload[0] && length[1] == payload[1] && length[2] == payload[2]
            && length[3] == payload[3]);
        if 8 + g <= payload.len() {
            let length = payload.subrange(4 + g, 8 + g);
            crate::bytes::lemma_le32_of_value(length);
            assert(length[0] == payload[4 + g] && length[1] == payload[5 + g] && length[2]
                == payload[6 + g] && length[3] == payload[7 + g]);
        }
    }
}

/// A payload of a participant id and a byte string behind its length.
pub open spec fn tagged_payload(participant_id: u8, body: Seq<u8>) -> Seq<u8> {
    seq![participant_id] + crate::bytes::le16(body.len()) + body
}

/// The outcome of parsing such a payload; the two texts are the errors for a
/// payload that is too short and for one whose length is not the stated one.
pub open spec fn tagged_outcome(
    payload: Seq<u8>,
    truncated: Seq<char>,
    mismatch: Seq<char>,
) -> Result<(u8, Seq<u8>), ErrorView> {
    if payload.len() < 3 {
        Err(ErrorView::Hx3(truncated))
    } else if payload.len() != 3 + crate::bytes::le_value(payload.subrange(1, 3)) {
        Err(ErrorView::Hx3(mismatch))
    } else {
        Ok((payload[0], payload.subrange(3, payload.len() as int)))
    }
}

proof fn lemma_tagged_round_trip(
    participant_id: u8,
    body: Seq<u8>,
    truncated: Seq<char>,
    mismatch: Seq<char>,
)
    requires
        body.len() < 65536,
    ensures
        tagged_outcome(tagged_payload(participant_id, body), truncated, mismatch) == Ok::<
            (u8, Seq<u8>),
            ErrorView,
        >((participant_id, body)),
{
    let payload = tagged_payload(participant_id, body);
    assert(payload.subrange(1, 3) =~= crate::bytes::le16(body.len()));
    crate::bytes::lemma_le16_value(body.len());
    assert(payload.subrange(3, payload.len() as int) =~= body);
}

proof fn lemma_tagged_parse_is_exact(
    payload: Seq<u8>,
    truncated: Seq<char>,
    mismatch: Seq<char>,
)
    ensures
        tagged_outcome(payload, truncated, mismatch) matches Ok((participant_id, body))
            ==> tagged_payload(participant_id, body) == payload,
{
    if let Ok((participant_id, body)) = tagged_outcome(payload, truncated, mismatch) {
        crate::bytes::lemma_le16_of_value(payload.subrange(1, 3));
        assert(tagged_payload(participant_id, body) =~= payload);
    }
}

/// A round-1 commitment from a participant ("I am willing to sign it").
#[derive(Debug, Clone, PartialEq, Eq)]
pub struct CommitmentData {
    /// Participant id (1-based, matching the share-file id).
    pub participant_id: u8,
    /// Encoded round-1 commitments.
    pub commitments: Vec<u8>,
}

/// A [`CommitmentData`] as a mathematical value.
#[verifier::ext_equal]
pub ghost struct CommitmentView {
    pub participant_id: u8,
    pub commitments: Seq<u8>,
}

impl View for CommitmentData {
    type V = CommitmentView;

    open spec fn view(&self) -> CommitmentView {
        CommitmentView { participant_id: self.participant_id, commitments: self.commitments@ }
    }
}

impl CommitmentView {
    /// The commitment payload.
    pub open spec fn payload(self) -> Seq<u8> {
        tagged_payload(self.participant_id, self.commitments)
    }
}

/// The outcome of parsing a commitment payload.
pub open spec fn commitment_outcome(payload: Seq<u8>) -> Result<CommitmentView, ErrorView> {
    match tagged_outcome(
        payload,
        "commitment payload is truncated"@,
        "commitment payload length mismatch"@,
    ) {
        Ok((participant_id, commitments)) => Ok(CommitmentView { participant_id, commitments }),
        Err(error) => Err(error),
    }
}

impl CommitmentData {
    /// Serialize to the commitment payload.
    pub fn to_payload(&self) -> (payload: Vec<u8>)
        ensures
            payload@ == self@.payload(),
    {
        let mut out: Vec<u8> = Vec::new();
        out.push(self.participant_id);
        push_le16(&mut out, self.commitments.len());
        out.extend_from_slice(self.commitments.as_slice());
        assert(out@ =~= self@.payload());
        out
    }

    /// Parse a commitment payload.
    pub fn from_payload(payload: &[u8]) -> (commitment: Result<CommitmentData, Error>)
        ensures
            crate::error::outcome(commitment) == commitment_outcome(payload@),
    {
        if payload.len() < 3 {
            return Err(Error::Hx3("commitment payload is truncated".to_owned()));
        }
        let len: usize = read_le16(payload, 1);
        if payload.len() != 3 + len {
            return Err(Error::Hx3("commitment payload length mismatch".to_owned()));
        }
        Ok(
            CommitmentData {
                participant_id: payload[0],
                commitments: vec_at(payload, 3, payload.len()),
            },
        )
    }
}

/// A commitment's payload parses as that commitment, if its length fits its
/// field.
pub proof fn commitment_round_trip(commitment: CommitmentView)
    requires
        commitment.commitments.len() < 65536,
    ensures
        commitment_outcome(commitment.payload()) == Ok::<CommitmentView, ErrorView>(commitment),
{
    lemma_tagged_round_trip(
        commitment.participant_id,
        commitment.commitments,
        "commitment payload is truncated"@,
        "commitment payload length mismatch"@,
    );
}

/// A commitment that parses has the payload it was parsed from.
pub proof fn commitment_parse_is_exact(payload: Seq<u8>)
    ensures
        commitment_outcome(payload) matches Ok(commitment) ==> commitment.payload() == payload,
{
    lemma_tagged_parse_is_exact(
        payload,
        "commitment payload is truncated"@,
        "commitment payload length mismatch"@,
    );
}

/// A round-2 signature share from a participant.
#[derive(Debug, Clone, PartialEq, Eq)]
pub struct SignatureShareData {
    /// Participant id (1-based, matching the share-file id).
    pub participant_id: u8,
    /// Encoded signature share.
    pub share: Vec<u8>,
}

/// A [`SignatureShareData`] as a mathematical value.
#[verifier::ext_equal]
pub ghost struct SignatureShareView {
    pub participant_id: u8,
    pub share: Seq<u8>,
}

impl View for SignatureShareData {
    type V = SignatureShareView;

    open spec fn view(&self) -> SignatureShareView {
        SignatureShareView { participant_id: self.participant_id, share: self.share@ }
    }
}

impl SignatureShareView {
    /// The signature-share payload.
    pub open spec fn payload(self) -> Seq<u8> {
        tagged_payload(self.participant_id, self.share)
    }
}

/// The outcome of parsing a signature-share payload.
pub open spec fn signature_share_outcome(payload: Seq<u8>) -> Result<
    SignatureShareView,
    ErrorView,
> {
    match tagged_outcome(
        payload,
        "signature share payload is truncated"@,
        "signature share payload length mismatch"@,
    ) {
        Ok((participant_id, share)) => Ok(SignatureShareView { participant_id, share }),
        Err(error) => Err(error),
    }
}

impl SignatureShareData {
    /// Serialize to the signature-share payload.
    pub fn to_payload(&self) -> (payload: Vec<u8>)
        ensures
            payload@ == self@.payload(),
    {
        let mut out: Vec<u8> = Vec::new();
        out.push(self.participant_id);
        push_le16(&mut out, self.share.len());
        out.extend_from_slice(self.share.as_slice());
        assert(out@ =~= self@.payload());
        out
    }

    /// Parse a signature-share payload.
    pub fn from_payload(payload: &[u8]) -> (share: Result<SignatureShareData, Error>)
        ensures
            crate::error::outcome(share) == signature_share_outcome(payload@),
    {
        if payload.len() < 3 {
            return Err(Error::Hx3("signature share payload is truncated".to_owned()));
        }
        let len: usize = read_le16(payload, 1);
        if payload.len() != 3 + len {
            return Err(Error::Hx3("signature share payload length mismatch".to_owned()));
        }
        Ok(
            SignatureShareData {
                participant_id: payload[0],
                share: vec_at(payload, 3, payload.len()),
            },
        )
    }
}

/// A signature share's payload parses as that share, if its length fits its
/// field.
pub proof fn signature_share_round_trip(share: SignatureShareView)
    requires
        share.share.len() < 65536,
    ensures
        signature_share_outcome(share.payload()) == Ok::<SignatureShareView, ErrorView>(share),
{
    lemma_tagged_round_trip(
        share.participant_id,
        share.share,
        "signature share payload is truncated"@,
        "signature share payload length mismatch"@,
    );
}

/// A signature share that parses has the payload it was parsed from.
pub proof fn signature_share_parse_is_exact(payload: Seq<u8>)
    ensures
        signature_share_outcome(payload) matches Ok(share) ==> share.payload() == payload,
{
    lemma_tagged_parse_is_exact(
        payload,
        "signature share payload is truncated"@,
        "signature share payload length mismatch"@,
    );
}

/// The payload of a commitment, and likewise that of a signature share, is the
/// participant's id, the length as two little-endian bytes, and the bytes.
pub proof fn participant_payload_layout(participant_id: u8, body: Seq<u8>)
    ensures
        (CommitmentView { participant_id, commitments: body }).payload() == seq![
            participant_id,
            (body.len() % 256) as u8,
            (body.len() / 256 % 256) as u8,
        ] + body,
        (SignatureShareView { participant_id, share: body }).payload() == seq![
            participant_id,
            (body.len() % 256) as u8,
            (body.len() / 256 % 256) as u8,
        ] + body,
{
    assert(tagged_payload(participant_id, body) =~= seq![
        participant_id,
        (body.len() % 256) as u8,
        (body.len() / 256 % 256) as u8,
    ] + body);
}

/// A payload parses as a commitment, and likewise as a signature share, if and
/// only if it is as long as its length field says; the first byte is the
/// participant's id. Whatever does not parse is a frame error.
pub proof fn participant_payload_parses_iff_well_formed(payload: Seq<u8>)
    ensures
        commitment_outcome(payload) is Ok <==> 3 <= payload.len() && payload.len() == 3 + payload[1]
            + 256 * payload[2],
        signature_share_outcome(payload) is Ok <==> 3 <= payload.len() && payload.len() == 3
            + payload[1] + 256 * payload[2],
        commitment_outcome(payload) matches Ok(c) ==> c.participant_id == payload[0]
            && c.commitments == payload.subrange(3, payload.len() as int),
        signature_share_outcome(payload) matches Ok(s) ==> s.participant_id == payload[0] && s.share
            == payload.subrange(3, payload.len() as int),
        commitment_outcome(payload) matches Err(error) ==> error == ErrorView::Hx3(
            if payload.len() < 3 {
                "commitment payload is truncated"@
            } else {
                "commitment payload length mismatch"@
            },
        ),
        signature_share_outcome(payload) matches Err(error) ==> error == ErrorView::Hx3(
            if payload.len() < 3 {
                "signature share payload is truncated"@
            } else {
                "signature share payload length mismatch"@
            },
        ),
{
    if 3 <= payload.len() {
        let field = payload.subrange(1, 3);
        assert(field[0] == payload[1] && field[1] == payload[2]);
        crate::bytes::lemma_le16_of_value(field);
    }
}

/// Create a fresh 16-byte session for a signing attempt.
pub fn new_session() -> (session: [u8; SESSION_LEN])
    ensures
        crate::crypto::is_random(session),
{
    crate::crypto::random_session()
}

/// The outcome of building a signing request in a session.
pub open spec fn new_request_outcome(
    session: Seq<u8>,
    group_pub: Seq<u8>,
    message: Seq<u8>,
) -> Result<RequestView, ErrorView> {
    match crate::mpc::group_outcome(group_pub) {
        Ok(group) => Ok(RequestView { session, group_pub: group, message }),
        Err(error) => Err(error),
    }
}

/// Build a signing request in a session of its own. Structurally validates the
/// group package up front so an unusable `group.pub` fails before it spreads.
pub fn mpc_sign_request(group_pub_bytes: &[u8], message: &[u8]) -> (request: Result<
    RequestData,
    Error,
>)
    ensures
        exists|session: [u8; SESSION_LEN]|
            crate::crypto::is_random(session) && crate::error::outcome(request)
                == #[trigger] new_request_outcome(session@, group_pub_bytes@, message@),
        match request {
            Ok(data) => {
                &&& crate::frost::public_key_package_parts(group_pub_bytes@) is Ok
                &&& crate::crypto::is_random(data.session)
                &&& data.group_pub@ == group_pub_bytes@
                &&& data.message@ == message@
            },
            Err(e) => crate::frost::public_key_package_parts(group_pub_bytes@) matches Err(text)
                && e@ == ErrorView::Mpc("invalid group public package: "@ + text),
        },
{
    let session = new_session();
    let request = request_in_session(session, group_pub_bytes, message);
    assert(crate::error::outcome(request) == new_request_outcome(
        session@,
        group_pub_bytes@,
        message@,
    ));
    request
}

/// Build a signing request in the session.
pub fn request_in_session(
    session: [u8; SESSION_LEN],
    group_pub_bytes: &[u8],
    message: &[u8],
) -> (request: Result<RequestData, Error>)
    ensures
        crate::error::outcome(request) == new_request_outcome(
            session@,
            group_pub_bytes@,
            message@,
        ),
        match request {
            Ok(data) => {
                &&& crate::frost::public_key_package_parts(group_pub_bytes@) is Ok
                &&& data.session == session
                &&& data.group_pub@ == group_pub_bytes@
                &&& data.message@ == message@
            },
            Err(e) => crate::frost::public_key_package_parts(group_pub_bytes@) matches Err(text)
                && e@ == ErrorView::Mpc("invalid group public package: "@ + text),
        },
{
    match crate::mpc::deserialize_public_key_package(group_pub_bytes) {
        Ok(_) => Ok(
            RequestData {
                session,
                group_pub: vstd::slice::slice_to_vec(group_pub_bytes),
                message: vstd::slice::slice_to_vec(message),
            },
        ),
        Err(e) => Err(e),
    }
}

/// The outcome of mapping a participant id to its identifier.
pub open spec fn identifier_outcome(id: u8) -> Result<Seq<u8>, ErrorView> {
    if id == 0 {
        Err(
            ErrorView::Mpc("participant id 0 is invalid (the default split uses 1..=n)"@),
        )
    } else {
        Ok(crate::frost::identifier_of(id as int))
    }
}

/// A participant id other than 0 has an identifier, whose first byte is the id;
/// different ids have different identifiers.
pub proof fn identifiers_are_distinct(id: u8, other: u8)
    ensures
        id == 0 ==> identifier_outcome(id) matches Err(ErrorView::Mpc(_)),
        id != 0 ==> (identifier_outcome(id) matches Ok(identifier) && identifier.len() == 32
            && identifier[0] == id && forall|i: int|
            0 < i < 32 ==> #[trigger] identifier[i] == 0),
        id != other && id != 0 ==> identifier_outcome(id) != identifier_outcome(other),
{
    if id != 0 && other != 0 {
        let (a, b) = (
            crate::frost::identifier_of(id as int),
            crate::frost::identifier_of(other as int),
        );
        assert(a[0] == id && b[0] == other);
    }
}

/// Map a `u8` participant id to the FROST identifier used by the default split
/// (the little-endian scalar `id`, matching the id in the share file).
pub fn identifier_from_u8(id: u8) -> (identifier: Result<[u8; 32], Error>)
    ensures
        crate::error::outcome(identifier) == identifier_outcome(id),
{
    if id == 0 {
        return Err(
            Error::Mpc("participant id 0 is invalid (the default split uses 1..=n)".to_owned()),
        );
    }
    let mut bytes: [u8; 32] = [0u8; 32];
    bytes[0] = id;
    proof {
        assert(bytes@ =~= crate::frost::identifier_of(id as int));
        crate::frost::lemma_identifier_is_valid(id as int);
    }
    match crate::frost::frost_identifier(&bytes) {
        Ok(identifier) => Ok(identifier),
        Err(e) => Err(
            Error::Mpc(
                "invalid participant id ".to_owned().concat(decimal(id as usize).as_str()).concat(
                    ": ",
                ).concat(e.as_str()),
            ),
        ),
    }
}

/// What a participant sent, once decoded: the id, and the canonical encoding
/// or the text of the decoding error.
pub type Decoded = (u8, Result<Vec<u8>, String>);

/// What participants sent, as mathematical values.
pub open spec fn decoded_view(items: Seq<Decoded>) -> Seq<(u8, Result<Seq<u8>, Seq<char>>)> {
    items.map_values(|item: Decoded| (item.0, crate::error::text_outcome(item.1)))
}

/// What participants sent is seen as it is, in its order; so are a request, a
/// commitment and a signature share.
pub proof fn messages_are_seen_whole(
    items: Seq<Decoded>,
    request: RequestData,
    commitment: CommitmentData,
    share: SignatureShareData,
)
    ensures
        decoded_view(items).len() == items.len(),
        forall|i: int|
            0 <= i < items.len() ==> (#[trigger] decoded_view(items)[i]).0 == items[i].0 && (
            match items[i].1 {
                Ok(bytes) => decoded_view(items)[i].1 == Ok::<Seq<u8>, Seq<char>>(bytes@),
                Err(text) => decoded_view(items)[i].1 == Err::<Seq<u8>, Seq<char>>(text@),
            }),
        request@.session == request.session@ && request@.group_pub == request.group_pub@
            && request@.message == request.message@,
        commitment@.participant_id == commitment.participant_id && commitment@.commitments
            == commitment.commitments@,
        share@.participant_id == share.participant_id && share@.share == share.share@,
{
}

/// Takes in one more commitment: it must come from a member of the group who
/// has not committed yet, and be well-formed.
pub open spec fn admit_commitment(
    members: Seq<Seq<u8>>,
    admitted: Map<Seq<u8>, Seq<u8>>,
    item: (u8, Result<Seq<u8>, Seq<char>>),
) -> Result<Map<Seq<u8>, Seq<u8>>, ErrorView> {
    let number = crate::text::decimal_text(item.0 as nat);
    match identifier_outcome(item.0) {
        Err(error) => Err(error),
        Ok(id) => if !members.contains(id) {
            Err(
                ErrorView::Mpc(
                    "commitment from participant "@ + number
                        + " is not a member of this group"@,
                ),
            )
        } else if admitted.dom().contains(id) {
            Err(ErrorView::Mpc("duplicate commitment from participant "@ + number))
        } else {
            match item.1 {
                Err(text) => Err(
                    ErrorView::Mpc(
                        "invalid commitment from participant "@ + number + ": "@ + text,
                    ),
                ),
                Ok(bytes) => Ok(admitted.insert(id, bytes)),
            }
        },
    }
}

/// Takes in commitments one after the other, up to the first that is refused.
pub open spec fn admit_commitments(
    members: Seq<Seq<u8>>,
    items: Seq<(u8, Result<Seq<u8>, Seq<char>>)>,
) -> Result<Map<Seq<u8>, Seq<u8>>, ErrorView>
    decreases items.len(),
{
    if items.len() == 0 {
        Ok(Map::empty())
    } else {
        match admit_commitments(members, items.drop_last()) {
            Err(error) => Err(error),
            Ok(admitted) => admit_commitment(members, admitted, items.last()),
        }
    }
}

proof fn lemma_commitment_refused(
    members: Seq<Seq<u8>>,
    items: Seq<(u8, Result<Seq<u8>, Seq<char>>)>,
    i: int,
)
    requires
        0 <= i <= items.len(),
        admit_commitments(members, items.take(i)) is Err,
    ensures
        admit_commitments(members, items) == admit_commitments(members, items.take(i)),
    decreases items.len(),
{
    if i == items.len() {
        assert(items.take(i) =~= items);
    } else {
        assert(items.drop_last().take(i) =~= items.take(i));
        lemma_commitment_refused(members, items.drop_last(), i);
    }
}

/// The outcome of gathering the commitments for a signing package.
pub open spec fn gather_outcome(
    members: Seq<Seq<u8>>,
    min: nat,
    items: Seq<(u8, Result<Seq<u8>, Seq<char>>)>,
) -> Result<Map<Seq<u8>, Seq<u8>>, ErrorView> {
    if items.len() < min {
        Err(ErrorView::NotEnoughShares(min, items.len()))
    } else {
        admit_commitments(members, items)
    }
}

/// Gathers the commitments for a signing package: no fewer than `min`, each
/// from another member of the group.
pub fn gather_commitments(members: &Vec<[u8; 32]>, min: usize, items: &Vec<Decoded>) -> (map: Result<
    IdMap,
    Error,
>)
    ensures
        crate::error::outcome(map) == gather_outcome(
            crate::frost::identifiers(members@),
            min as nat,
            decoded_view(items@),
        ),
{
    if items.len() < min {
        return Err(Error::NotEnoughShares(min, items.len()));
    }
    let ghost ids = crate::frost::identifiers(members@);
    let ghost views = decoded_view(items@);
    let mut map = IdMap::new();
    let mut i: usize = 0;
    assert(views.take(0) =~= Seq::empty());
    while i < items.len()
        invariant
            i <= items@.len(),
            min <= items@.len(),
            ids == crate::frost::identifiers(members@),
            views == decoded_view(items@),
            admit_commitments(ids, views.take(i as int)) == Ok::<
                Map<Seq<u8>, Seq<u8>>,
                ErrorView,
            >(map@),
        decreases items@.len() - i,
    {
        proof {
            assert(views.take(i + 1).drop_last() =~= views.take(i as int));
            assert(views[i as int] == (
                items@[i as int].0,
                crate::error::text_outcome(items@[i as int].1),
            ));
            if admit_commitments(ids, views.take(i + 1)) is Err {
                lemma_commitment_refused(ids, views, i + 1);
            }
        }
        let participant_id: u8 = items[i].0;
        let id = match identifier_from_u8(participant_id) {
            Ok(id) => id,
            Err(e) => return Err(e),
        };
        if !crate::frost::is_member(members, &id) {
            return Err(
                Error::Mpc(
                    "commitment from participant ".to_owned().concat(
                        decimal(participant_id as usize).as_str(),
                    ).concat(" is not a member of this group"),
                ),
            );
        }
        if map.contains_key(&id) {
            return Err(
                Error::Mpc(
                    "duplicate commitment from participant ".to_owned().concat(
                        decimal(participant_id as usize).as_str(),
                    ),
                ),
            );
        }
        match &items[i].1 {
            Ok(bytes) => map.insert(id, vstd::slice::slice_to_vec(bytes.as_slice())),
            Err(e) => {
                return Err(
                    Error::Mpc(
                        "invalid commitment from participant ".to_owned().concat(
                            decimal(participant_id as usize).as_str(),
                        ).concat(": ").concat(e.as_str()),
                    ),
                );
            },
        }
        i += 1;
    }
    assert(views.take(i as int) =~= views);
    Ok(map)
}

/// Commitments as they are after decoding.
pub open spec fn decoded_commitments(commitments: Seq<CommitmentData>) -> Seq<
    (u8, Result<Seq<u8>, Seq<char>>),
> {
    commitments.map_values(
        |c: CommitmentData|
            (c.participant_id, crate::frost::commitments_encoding(c.commitments@)),
    )
}

/// A gathered map holds one commitment for each participant who sent one: all
/// of them members of the group, none twice, no fewer than the threshold.
pub proof fn gathered_commitments_are_a_quorum(
    members: Seq<Seq<u8>>,
    min: nat,
    items: Seq<(u8, Result<Seq<u8>, Seq<char>>)>,
)
    ensures
        gather_outcome(members, min, items) matches Ok(map) ==> {
            &&& map.dom().finite()
            &&& map.len() == items.len() >= min
            &&& forall|id: Seq<u8>| map.dom().contains(id) ==> #[trigger] members.contains(id)
            &&& forall|i: int|
                0 <= i < items.len() ==> map.dom().contains(
                    crate::frost::identifier_of((#[trigger] items[i]).0 as int),
                ) && Ok::<Seq<u8>, Seq<char>>(
                    map[crate::frost::identifier_of(items[i].0 as int)],
                ) == items[i].1
        },
{
    lemma_admitted(members, items);
}

proof fn lemma_admitted(
    members: Seq<Seq<u8>>,
    items: Seq<(u8, Result<Seq<u8>, Seq<char>>)>,
)
    ensures
        admit_commitments(members, items) matches Ok(map) ==> {
            &&& map.dom().finite()
            &&& map.len() == items.len()
            &&& forall|id: Seq<u8>| map.dom().contains(id) ==> #[trigger] members.contains(id)
            &&& forall|id: Seq<u8>| #[trigger]
                map.dom().contains(id) ==> exists|i: int|
                    0 <= i < items.len() && (#[trigger] items[i]).0 != 0 && id
                        == crate::frost::identifier_of(items[i].0 as int) && Ok::<
                        Seq<u8>,
                        Seq<char>,
                    >(map[id]) == items[i].1
            &&& forall|i: int|
                0 <= i < items.len() ==> map.dom().contains(
                    crate::frost::identifier_of((#[trigger] items[i]).0 as int),
                ) && Ok::<Seq<u8>, Seq<char>>(
                    map[crate::frost::identifier_of(items[i].0 as int)],
                ) == items[i].1
        },
    decreases items.len(),
{
    if items.len() > 0 {
        let fewer = items.drop_last();
        lemma_admitted(members, fewer);
        if let Ok(map) = admit_commitments(members, items) {
            let before = admit_commitments(members, fewer)->Ok_0;
            let new = crate::frost::identifier_of(items.last().0 as int);
            assert(items.last() == items[items.len() - 1]);
            assert forall|id: Seq<u8>| #[trigger] map.dom().contains(id) implies exists|i: int|
                0 <= i < items.len() && (#[trigger] items[i]).0 != 0 && id
                    == crate::frost::identifier_of(items[i].0 as int) && Ok::<
                    Seq<u8>,
                    Seq<char>,
                >(map[id]) == items[i].1 by {
                if id == new {
                    assert(items[items.len() - 1].0 != 0);
                } else {
                    assert(before.dom().contains(id));
                    let i = choose|i: int|
                        0 <= i < fewer.len() && (#[trigger] fewer[i]).0 != 0 && id
                            == crate::frost::identifier_of(fewer[i].0 as int) && Ok::<
                            Seq<u8>,
                            Seq<char>,
                        >(before[id]) == fewer[i].1;
                    assert(items[i] == fewer[i]);
                }
            }
            assert forall|i: int| 0 <= i < items.len() implies map.dom().contains(
                crate::frost::identifier_of((#[trigger] items[i]).0 as int),
            ) && Ok::<Seq<u8>, Seq<char>>(map[crate::frost::identifier_of(items[i].0 as int)])
                == items[i].1 by {
                if i < items.len() - 1 {
                    assert(fewer[i] == items[i]);
                }
            }
        }
    }
}

/// The outcome of gathering the commitments that answer a request.
pub open spec fn package_commitments(
    request: RequestView,
    commitments: Seq<CommitmentData>,
) -> Result<Map<Seq<u8>, Seq<u8>>, ErrorView> {
    match crate::mpc::group_outcome(request.group_pub) {
        Err(error) => Err(error),
        Ok(group) => gather_outcome(
            crate::frost::group_members(group),
            crate::frost::group_threshold(group),
            decoded_commitments(commitments),
        ),
    }
}

/// Coordinate round 1: assemble the signing package from the collected
/// commitments. Rejects any commitment that is not from a group member, any
/// duplicate participant, and any set below the group threshold. A package of
/// commitments that are not rejected is always built, and decodes to those
/// commitments and the request's message.
pub fn mpc_sign_package(request: &RequestData, commitments: &[CommitmentData]) -> (package: Result<
    Vec<u8>,
    Error,
>)
    ensures
        match package_commitments(request@, commitments@) {
            Err(error) => package is Err && package->Err_0@ == error,
            Ok(map) => {
                &&& package is Ok
                &&& crate::frost::signing_package_encoding(map, request.message@) == Ok::<
                    Seq<u8>,
                    Seq<char>,
                >(package->Ok_0@)
                &&& crate::frost::encodes_package(package->Ok_0@, map, request.message@)
            },
        },
{
    let group_pub = match crate::mpc::deserialize_public_key_package(
        request.group_pub.as_slice(),
    ) {
        Ok(group) => group,
        Err(e) => return Err(e),
    };
    let ghost views = decoded_commitments(commitments@);
    let mut decoded: Vec<Decoded> = Vec::new();
    let mut i: usize = 0;
    while i < commitments.len()
        invariant
            i <= commitments@.len(),
            views == decoded_commitments(commitments@),
            decoded_view(decoded@) == views.take(i as int),
            forall|j: int|
                0 <= j < i ==> ((#[trigger] views[j]).1 matches Ok(c)
                    ==> crate::frost::canonical_commitments(c)),
        decreases commitments@.len() - i,
    {
        let ghost before = decoded@;
        let item: Decoded = (
            commitments[i].participant_id,
            crate::frost::frost_commitments(commitments[i].commitments.as_slice()),
        );
        decoded.push(item);
        i += 1;
        proof {
            assert(views[i - 1] == (item.0, crate::error::text_outcome(item.1)));
            assert(decoded_view(decoded@) =~= decoded_view(before).push(views[i - 1]));
            assert(views.take(i as int) =~= views.take(i - 1).push(views[i - 1]));
        }
    }
    assert(views.take(i as int) =~= views);
    let map = match gather_commitments(group_pub.members(), group_pub.min_signers(), &decoded) {
        Ok(map) => map,
        Err(e) => return Err(e),
    };
    proof {
        let members = crate::frost::group_members(request.group_pub@);
        lemma_admitted(members, views);
        assert forall|id: Seq<u8>| #[trigger]
            map@.dom().contains(id) implies crate::frost::valid_scalar(id)
            && crate::frost::canonical_commitments(map@[id]) by {
            let j = choose|j: int|
                0 <= j < views.len() && (#[trigger] views[j]).0 != 0 && id
                    == crate::frost::identifier_of(views[j].0 as int) && Ok::<
                    Seq<u8>,
                    Seq<char>,
                >(map@[id]) == views[j].1;
            crate::frost::lemma_identifier_is_valid(views[j].0 as int);
        }
    }
    match crate::mpc::build_signing_package(map, request.message.as_slice()).serialize() {
        Ok(bytes) => Ok(bytes),
        Err(e) => Err(
            Error::Mpc("failed to serialize signing package: ".to_owned().concat(e.as_str())),
        ),
    }
}

/// Takes in one more signature share: it must come from a member of the group
/// with a commitment in the package who has sent none yet, and be well-formed.
pub open spec fn admit_share(
    members: Seq<Seq<u8>>,
    committed: Map<Seq<u8>, Seq<u8>>,
    admitted: Map<Seq<u8>, Seq<u8>>,
    item: (u8, Result<Seq<u8>, Seq<char>>),
) -> Result<Map<Seq<u8>, Seq<u8>>, ErrorView> {
    let number = crate::text::decimal_text(item.0 as nat);
    match identifier_outcome(item.0) {
        Err(error) => Err(error),
        Ok(id) => if !members.contains(id) {
            Err(
                ErrorView::Mpc(
                    "signature share from participant "@ + number
                        + " is not a member of this group"@,
                ),
            )
        } else if !committed.dom().contains(id) {
            Err(
                ErrorView::Mpc(
                    "signature share from participant "@ + number
                        + " has no commitment in the signing package"@,
                ),
            )
        } else if admitted.dom().contains(id) {
            Err(ErrorView::Mpc("duplicate signature share from participant "@ + number))
        } else {
            match item.1 {
                Err(text) => Err(
                    ErrorView::Mpc(
                        "invalid signature share from participant "@ + number + ": "@ + text,
                    ),
                ),
                Ok(bytes) => Ok(admitted.insert(id, bytes)),
            }
        },
    }
}

/// Takes in signature shares one after the other, up to the first that is
/// refused.
pub open spec fn admit_shares(
    members: Seq<Seq<u8>>,
    committed: Map<Seq<u8>, Seq<u8>>,
    items: Seq<(u8, Result<Seq<u8>, Seq<char>>)>,
) -> Result<Map<Seq<u8>, Seq<u8>>, ErrorView>
    decreases items.len(),
{
    if items.len() == 0 {
        Ok(Map::empty())
    } else {
        match admit_shares(members, committed, items.drop_last()) {
            Err(error) => Err(error),
            Ok(admitted) => admit_share(members, committed, admitted, items.last()),
        }
    }
}

proof fn lemma_share_refused(
    members: Seq<Seq<u8>>,
    committed: Map<Seq<u8>, Seq<u8>>,
    items: Seq<(u8, Result<Seq<u8>, Seq<char>>)>,
    i: int,
)
    requires
        0 <= i <= items.len(),
        admit_shares(members, committed, items.take(i)) is Err,
    ensures
        admit_shares(members, committed, items) == admit_shares(members, committed, items.take(i)),
    decreases items.len(),
{
    if i == items.len() {
        assert(items.take(i) =~= items);
    } else {
        assert(items.drop_last().take(i) =~= items.take(i));
        lemma_share_refused(members, committed, items.drop_last(), i);
    }
}

/// Gathers the signature shares for a signing package: each from another
/// member of the group who committed.
pub fn gather_shares(members: &Vec<[u8; 32]>, committed: &IdMap, items: &Vec<Decoded>) -> (map:
    Result<IdMap, Error>)
    ensures
        crate::error::outcome(map) == admit_shares(
            crate::frost::identifiers(members@),
            committed@,
            decoded_view(items@),
        ),
{
    let ghost ids = crate::frost::identifiers(members@);
    let ghost views = decoded_view(items@);
    let mut map = IdMap::new();
    let mut i: usize = 0;
    assert(views.take(0) =~= Seq::empty());
    while i < items.len()
        invariant
            i <= items@.len(),
            ids == crate::frost::identifiers(members@),
            views == decoded_view(items@),
            admit_shares(ids, committed@, views.take(i as int)) == Ok::<
                Map<Seq<u8>, Seq<u8>>,
                ErrorView,
            >(map@),
        decreases items@.len() - i,
    {
        proof {
            assert(views.take(i + 1).drop_last() =~= views.take(i as int));
            assert(views[i as int] == (
                items@[i as int].0,
                crate::error::text_outcome(items@[i as int].1),
            ));
            if admit_shares(ids, committed@, views.take(i + 1)) is Err {
                lemma_share_refused(ids, committed@, views, i + 1);
            }
        }
        let participant_id: u8 = items[i].0;
        let id = match identifier_from_u8(participant_id) {
            Ok(id) => id,
            Err(e) => return Err(e),
        };
        if !crate::frost::is_member(members, &id) {
            return Err(
                Error::Mpc(
                    "signature share from participant ".to_owned().concat(
                        decimal(participant_id as usize).as_str(),
                    ).concat(" is not a member of this group"),
                ),
            );
        }
        if !committed.contains_key(&id) {
            return Err(
                Error::Mpc(
                    "signature share from participant ".to_owned().concat(
                        decimal(participant_id as usize).as_str(),
                    ).concat(" has no commitment in the signing package"),
                ),
            );
        }
        if map.contains_key(&id) {
            return Err(
                Error::Mpc(
                    "duplicate signature share from participant ".to_owned().concat(
                        decimal(participant_id as usize).as_str(),
                    ),
                ),
            );
        }
        match &items[i].1 {
            Ok(bytes) => map.insert(id, vstd::slice::slice_to_vec(bytes.as_slice())),
            Err(e) => {
                return Err(
                    Error::Mpc(
                        "invalid signature share from participant ".to_owned().concat(
                            decimal(participant_id as usize).as_str(),
                        ).concat(": ").concat(e.as_str()),
                    ),
                );
            },
        }
        i += 1;
    }
    assert(views.take(i as int) =~= views);
    Ok(map)
}

/// Signature shares as they are after decoding.
pub open spec fn decoded_shares(shares: Seq<SignatureShareData>) -> Seq<
    (u8, Result<Seq<u8>, Seq<char>>),
> {
    shares.map_values(
        |s: SignatureShareData|
            (s.participant_id, crate::frost::signature_share_encoding(s.share@)),
    )
}

/// The outcome of combining signature shares with a signing package.
pub open spec fn finalize_outcome(
    package: Seq<u8>,
    shares: Seq<SignatureShareData>,
    group_pub: Seq<u8>,
) -> Result<MpcSignatureView, ErrorView> {
    match crate::frost::signing_package_parts(package) {
        Err(text) => Err(ErrorView::Mpc("invalid signing package: "@ + text)),
        Ok((commitments, message)) => match crate::mpc::group_outcome(group_pub) {
            Err(error) => Err(error),
            Ok(group) => match admit_shares(
                crate::frost::group_members(group),
                commitments,
                decoded_shares(shares),
            ) {
                Err(error) => Err(error),
                Ok(map) => crate::mpc::aggregate_outcome(commitments, message, map, group),
            },
        },
    }
}

/// A signature that was finalized verifies over the package's message under the
/// group's key, and the shares were admitted and came from exactly those who
/// committed in the package: all of them members of the group, no fewer than
/// its threshold.
pub open spec fn is_finalized(
    signature: MpcSignatureView,
    package: Seq<u8>,
    shares: Seq<SignatureShareData>,
    group_pub: Seq<u8>,
) -> bool {
    &&& crate::frost::signing_package_parts(package) matches Ok((commitments, message))
    &&& admit_shares(
        crate::frost::group_members(group_pub),
        commitments,
        decoded_shares(shares),
    ) matches Ok(map)
    &&& crate::mpc::verifies_under(signature, message, group_pub)
    &&& crate::frost::is_signing_quorum(commitments, map, group_pub)
    &&& crate::mpc::is_quorum(commitments, group_pub)
}

/// Signature shares that were admitted: each participant who sent one has an id
/// other than 0, is a member of the group with a commitment in the package, and
/// sent no other; the map holds the shares of exactly these participants.
pub proof fn admitted_shares_are_distinct(
    members: Seq<Seq<u8>>,
    committed: Map<Seq<u8>, Seq<u8>>,
    items: Seq<(u8, Result<Seq<u8>, Seq<char>>)>,
)
    ensures
        admit_shares(members, committed, items) matches Ok(map) ==> {
            &&& map.dom().finite()
            &&& map.len() == items.len()
            &&& forall|i: int|
                0 <= i < items.len() ==> (#[trigger] items[i]).0 != 0 && {
                    let id = crate::frost::identifier_of(items[i].0 as int);
                    members.contains(id) && committed.dom().contains(id) && map.dom().contains(id)
                        && Ok::<Seq<u8>, Seq<char>>(map[id]) == items[i].1
                }
            &&& forall|i: int, j: int|
                0 <= i < j < items.len() ==> (#[trigger] items[i]).0 != (#[trigger] items[j]).0
            &&& forall|id: Seq<u8>| #[trigger]
                map.dom().contains(id) ==> exists|i: int|
                    0 <= i < items.len() && id == crate::frost::identifier_of(
                        (#[trigger] items[i]).0 as int,
                    )
        },
    decreases items.len(),
{
    if items.len() > 0 {
        let fewer = items.drop_last();
        admitted_shares_are_distinct(members, committed, fewer);
        if let Ok(map) = admit_shares(members, committed, items) {
            let before = admit_shares(members, committed, fewer)->Ok_0;
            let last = items[items.len() - 1];
            let new = crate::frost::identifier_of(last.0 as int);
            assert(items.last() == last);
            assert forall|i: int| 0 <= i < items.len() implies (#[trigger] items[i]).0 != 0 && {
                let id = crate::frost::identifier_of(items[i].0 as int);
                members.contains(id) && committed.dom().contains(id) && map.dom().contains(id)
                    && Ok::<Seq<u8>, Seq<char>>(map[id]) == items[i].1
            } by {
                if i < items.len() - 1 {
                    assert(fewer[i] == items[i]);
                }
            }
            assert forall|i: int, j: int| 0 <= i < j < items.len() implies (#[trigger] items[i]).0
                != (#[trigger] items[j]).0 by {
                assert(fewer[i] == items[i]);
                if j < items.len() - 1 {
                    assert(fewer[j] == items[j]);
                }
            }
            assert forall|id: Seq<u8>| #[trigger] map.dom().contains(id) implies exists|i: int|
                0 <= i < items.len() && id == crate::frost::identifier_of(
                    (#[trigger] items[i]).0 as int,
                ) by {
                if id == new {
                    assert(items[items.len() - 1] == last);
                } else {
                    assert(before.dom().contains(id));
                    let i = choose|i: int|
                        0 <= i < fewer.len() && id == crate::frost::identifier_of(
                            (#[trigger] fewer[i]).0 as int,
                        );
                    assert(items[i] == fewer[i]);
                }
            }
        }
    }
}

/// A finalized signature is made of one share from each participant who
/// committed in the package: no one else sent one, and no one sent two.
pub proof fn finalized_shares_are_those_committed(
    signature: MpcSignatureView,
    package: Seq<u8>,
    shares: Seq<SignatureShareData>,
    group_pub: Seq<u8>,
)
    requires
        is_finalized(signature, package, shares, group_pub),
    ensures
        crate::frost::signing_package_parts(package) matches Ok((commitments, _)) && {
            &&& shares.len() == commitments.len()
            &&& forall|id: Seq<u8>| #[trigger]
                commitments.dom().contains(id) ==> exists|i: int|
                    0 <= i < shares.len() && id == crate::frost::identifier_of(
                        (#[trigger] shares[i]).participant_id as int,
                    )
            &&& forall|i: int|
                0 <= i < shares.len() ==> (#[trigger] shares[i]).participant_id != 0
                    && commitments.dom().contains(
                    crate::frost::identifier_of(shares[i].participant_id as int),
                )
            &&& forall|i: int, j: int|
                0 <= i < j < shares.len() ==> (#[trigger] shares[i]).participant_id != (
                #[trigger] shares[j]).participant_id
        },
{
    let (commitments, _) = crate::frost::signing_package_parts(package)->Ok_0;
    let members = crate::frost::group_members(group_pub);
    let items = decoded_shares(shares);
    admitted_shares_are_distinct(members, commitments, items);
    let map = admit_shares(members, commitments, items)->Ok_0;
    assert forall|id: Seq<u8>| #[trigger] commitments.dom().contains(id) implies exists|i: int|
        0 <= i < shares.len() && id == crate::frost::identifier_of(
            (#[trigger] shares[i]).participant_id as int,
        ) by {
        assert(map.dom().contains(id));
        let i = choose|i: int|
            0 <= i < items.len() && id == crate::frost::identifier_of(
                (#[trigger] items[i]).0 as int,
            );
        assert(shares[i].participant_id == items[i].0);
    }
    assert forall|i: int| 0 <= i < shares.len() implies (#[trigger] shares[i]).participant_id != 0
        && commitments.dom().contains(
        crate::frost::identifier_of(shares[i].participant_id as int),
    ) by {
        assert(items[i].0 == shares[i].participant_id);
    }
    assert forall|i: int, j: int| 0 <= i < j < shares.len() implies (
    #[trigger] shares[i]).participant_id != (#[trigger] shares[j]).participant_id by {
        assert(items[i].0 == shares[i].participant_id && items[j].0 == shares[j].participant_id);
    }
}

/// A signature share is the one that participant `k` of a quorum makes for the
/// package.
pub open spec fn made_share(
    quorum: Quorum,
    nonces: Seq<Seq<u8>>,
    package: Seq<u8>,
    share: SignatureShareData,
    k: int,
) -> bool {
    &&& share.participant_id == quorum.numbers[k]
    &&& nonces[k].len() == 64
    &&& crate::frost::canonical_scalar(share.share@)
    &&& crate::frost::signing_package_parts(package) matches Ok((commitments, message))
        && crate::frost::frost_signature_share(
        commitments,
        message,
        nonces[k],
        quorum.key_packages[k],
    ) == Ok::<Seq<u8>, Seq<char>>(share.share@)
}

/// The signature shares are those that the participants of a quorum make for a
/// package in which exactly they committed.
pub open spec fn are_made_for(
    quorum: Quorum,
    nonces: Seq<Seq<u8>>,
    package: Seq<u8>,
    shares: Seq<SignatureShareData>,
) -> bool {
    &&& crate::frost::signing_package_parts(package) matches Ok((commitments, _))
        && commitments.dom() == quorum.identifiers()
    &&& shares.len() == quorum.numbers.len()
    &&& nonces.len() == quorum.numbers.len()
    &&& forall|k: int|
        0 <= k < shares.len() ==> made_share(quorum, nonces, package, #[trigger] shares[k], k)
}

/// The signature shares are made for the package by everyone who committed in
/// it: distinct participants of the split of the group, no fewer than its
/// threshold.
pub open spec fn are_complete_shares(
    package: Seq<u8>,
    shares: Seq<SignatureShareData>,
    group_pub: Seq<u8>,
) -> bool {
    exists|quorum: Quorum, nonces: Seq<Seq<u8>>|
        quorum.belongs_to(group_pub) && #[trigger] are_made_for(quorum, nonces, package, shares)
}

/// Complete signature shares are admitted, and are those of a quorum.
proof fn lemma_complete_shares(
    package: Seq<u8>,
    shares: Seq<SignatureShareData>,
    group_pub: Seq<u8>,
)
    requires
        are_complete_shares(package, shares, group_pub),
    ensures
        crate::frost::signing_package_parts(package) matches Ok((commitments, message))
            && admit_shares(
            crate::frost::group_members(group_pub),
            commitments,
            decoded_shares(shares),
        ) matches Ok(map) && crate::frost::are_quorum_shares(commitments, message, map, group_pub),
{
    let (quorum, nonces) = choose|quorum: Quorum, nonces: Seq<Seq<u8>>|
        quorum.belongs_to(group_pub) && #[trigger] are_made_for(quorum, nonces, package, shares);
    let (commitments, message) = crate::frost::signing_package_parts(package)->Ok_0;
    let members = crate::frost::group_members(group_pub);
    let items = decoded_shares(shares);
    let ids = quorum.numbers.map_values(|x: int| crate::frost::identifier_of(x));
    assert forall|k: int| 0 <= k < items.len() implies {
        let id = crate::frost::identifier_of((#[trigger] items[k]).0 as int);
        items[k].0 == quorum.numbers[k] && items[k].0 != 0 && items[k].1 == Ok::<
            Seq<u8>,
            Seq<char>,
        >(shares[k].share@) && members.contains(id) && commitments.dom().contains(id)
    } by {
        assert(made_share(quorum, nonces, package, shares[k], k));
        assert(1 <= quorum.numbers[k] <= quorum.share_count);
        assert(members[quorum.numbers[k] - 1] == crate::frost::identifier_of(quorum.numbers[k]));
        assert(ids[k] == crate::frost::identifier_of(quorum.numbers[k]));
        assert(ids.to_set().contains(ids[k]));
    }
    assert forall|j: int, k: int| 0 <= j < k < items.len() implies (#[trigger] items[j]).0 != (
    #[trigger] items[k]).0 by {
        assert(quorum.numbers[j] != quorum.numbers[k]);
    }
    lemma_distinct_shares_are_admitted(members, commitments, items);
    admitted_shares_are_distinct(members, commitments, items);
    let map = admit_shares(members, commitments, items)->Ok_0;
    assert forall|id: Seq<u8>| map.dom().contains(id) <==> ids.to_set().contains(id) by {
        if map.dom().contains(id) {
            let k = choose|k: int|
                0 <= k < items.len() && id == crate::frost::identifier_of(
                    (#[trigger] items[k]).0 as int,
                );
            assert(ids[k] == id);
        }
        if ids.contains(id) {
            let k = choose|k: int| 0 <= k < ids.len() && ids[k] == id;
            assert(items[k].0 == quorum.numbers[k]);
        }
    }
    assert(map.dom() =~= quorum.identifiers());
    assert forall|k: int| 0 <= k < nonces.len() implies (#[trigger] nonces[k]).len() == 64
        && crate::frost::frost_signature_share(
        commitments,
        message,
        nonces[k],
        quorum.key_packages[k],
    ) == Ok::<Seq<u8>, Seq<char>>(map[crate::frost::identifier_of(quorum.numbers[k])]) by {
        assert(made_share(quorum, nonces, package, shares[k], k));
        assert(items[k].0 == quorum.numbers[k]);
    }
    assert(quorum.makes_shares(nonces, commitments, message, map));
}

/// Well-formed signature shares from distinct members of the group who
/// committed are always admitted.
proof fn lemma_distinct_shares_are_admitted(
    members: Seq<Seq<u8>>,
    committed: Map<Seq<u8>, Seq<u8>>,
    items: Seq<(u8, Result<Seq<u8>, Seq<char>>)>,
)
    requires
        forall|i: int|
            0 <= i < items.len() ==> {
                let id = crate::frost::identifier_of((#[trigger] items[i]).0 as int);
                items[i].0 != 0 && items[i].1 is Ok && members.contains(id)
                    && committed.dom().contains(id)
            },
        forall|i: int, j: int|
            0 <= i < j < items.len() ==> (#[trigger] items[i]).0 != (#[trigger] items[j]).0,
    ensures
        admit_shares(members, committed, items) is Ok,
    decreases items.len(),
{
    if items.len() > 0 {
        let fewer = items.drop_last();
        lemma_distinct_shares_are_admitted(members, committed, fewer);
        admitted_shares_are_distinct(members, committed, fewer);
        let before = admit_shares(members, committed, fewer)->Ok_0;
        let last = items[items.len() - 1];
        assert(items.last() == last);
        let id = crate::frost::identifier_of(last.0 as int);
        if before.dom().contains(id) {
            let i = choose|i: int|
                0 <= i < fewer.len() && id == crate::frost::identifier_of(
                    (#[trigger] fewer[i]).0 as int,
                );
            assert(items[i].0 != last.0);
            assert(id[0] == last.0);
            assert(crate::frost::identifier_of(fewer[i].0 as int)[0] == fewer[i].0);
        }
    }
}

/// Every failure to finalize is a FROST error.
pub proof fn finalize_fails_as_mpc(
    package: Seq<u8>,
    shares: Seq<SignatureShareData>,
    group_pub: Seq<u8>,
)
    ensures
        finalize_outcome(package, shares, group_pub) matches Err(error) ==> error is Mpc,
{
    if let Ok((commitments, _)) = crate::frost::signing_package_parts(package) {
        lemma_refusal_is_mpc(
            crate::frost::group_members(group_pub),
            commitments,
            decoded_shares(shares),
        );
    }
}

proof fn lemma_refusal_is_mpc(
    members: Seq<Seq<u8>>,
    committed: Map<Seq<u8>, Seq<u8>>,
    items: Seq<(u8, Result<Seq<u8>, Seq<char>>)>,
)
    ensures
        admit_shares(members, committed, items) matches Err(error) ==> error is Mpc,
    decreases items.len(),
{
    if items.len() > 0 {
        lemma_refusal_is_mpc(members, committed, items.drop_last());
    }
}

/// Combine the signature shares with the signing package into a single
/// Ed25519 signature. Verifies it against the group verifying key first; an
/// unverifiable or tampered aggregate is an error, never a returned signature.
/// A signature that is returned was made by exactly those who committed: all
/// of them members of the group, no fewer than its threshold. Shares that
/// everyone who committed made for the package always make a signature.
pub fn finalize_signature(
    package_bytes: &[u8],
    shares: &[SignatureShareData],
    group_pub_bytes: &[u8],
) -> (signature: Result<MpcSignature, Error>)
    ensures
        crate::error::outcome(signature) == finalize_outcome(
            package_bytes@,
            shares@,
            group_pub_bytes@,
        ),
        signature matches Ok(s) ==> is_finalized(
            s@,
            package_bytes@,
            shares@,
            group_pub_bytes@,
        ),
        are_complete_shares(package_bytes@, shares@, group_pub_bytes@) ==> signature is Ok,
{
    proof {
        if are_complete_shares(package_bytes@, shares@, group_pub_bytes@) {
            lemma_complete_shares(package_bytes@, shares@, group_pub_bytes@);
        }
    }
    let package = match SigningPackage::deserialize(package_bytes) {
        Ok(package) => package,
        Err(e) => {
            return Err(Error::Mpc("invalid signing package: ".to_owned().concat(e.as_str())));
        },
    };
    let group_pub = match crate::mpc::deserialize_public_key_package(group_pub_bytes) {
        Ok(group) => group,
        Err(e) => return Err(e),
    };
    let ghost views = decoded_shares(shares@);
    let mut decoded: Vec<Decoded> = Vec::new();
    let mut i: usize = 0;
    while i < shares.len()
        invariant
            i <= shares@.len(),
            views == decoded_shares(shares@),
            decoded_view(decoded@) == views.take(i as int),
        decreases shares@.len() - i,
    {
        let ghost before = decoded@;
        let item: Decoded = (
            shares[i].participant_id,
            crate::frost::frost_share(shares[i].share.as_slice()),
        );
        decoded.push(item);
        i += 1;
        proof {
            assert(views[i - 1] == (item.0, crate::error::text_outcome(item.1)));
            assert(decoded_view(decoded@) =~= decoded_view(before).push(views[i - 1]));
            assert(views.take(i as int) =~= views.take(i - 1).push(views[i - 1]));
        }
    }
    assert(views.take(i as int) =~= views);
    let share_map = match gather_shares(group_pub.members(), &package.commitments, &decoded) {
        Ok(map) => map,
        Err(e) => return Err(e),
    };
    crate::mpc::aggregate_signature(&package, &share_map, &group_pub)
}

/// A participant whose key share has been decrypted and checked against the
/// request's group for one signing session.
pub struct Participant {
    /// The participant's (secret) key package, held in memory for this session.
    pub key_package: KeyPackage,
    /// The session the participant is committing to.
    pub session: [u8; SESSION_LEN],
}

/// The step of loading a participant: what it reports, and the key package or
/// the error.
pub open spec fn participant_step(
    request: RequestView,
    file: StoredFileView,
    password: Seq<char>,
) -> Step<Seq<u8>> {
    match crate::mpc::read_outcome(file.content) {
        Err(error) => crate::steps::silent(Err(error)),
        Ok(share) => match share.decrypt_outcome(password) {
            Err(error) => Step { events: seq![(share.id, false)], result: Err(error) },
            Ok(key_package) => Step {
                events: seq![(share.id, true)],
                result: match crate::mpc::group_outcome(request.group_pub) {
                    Err(error) => Err(error),
                    Ok(group) => if crate::frost::key_verifying_key(key_package)
                        != crate::frost::group_key(group) {
                        Err(ErrorView::MpcGroupMismatch { path: file.path })
                    } else {
                        Ok(key_package)
                    },
                },
            },
        },
    }
}

/// What loading a participant comes to. A file that cannot be read is its error;
/// one that is no share file is none; neither is reported. A share that
/// AES-256-GCM does not open under the Argon2id hash of the password is reported
/// as refused, and so is one that holds no key package. One that is opened is
/// reported, and accepted if and only if its key package names the verifying key
/// of the group in the request, whatever its id.
pub proof fn participant_is_loaded_for_its_group(
    request: RequestView,
    file: StoredFileView,
    password: Seq<char>,
)
    requires
        vstd::utf8::encode_utf8(password).len() <= 0xFFFF_FFFF,
    ensures
        ({
            let step = participant_step(request, file, password);
            match file.content {
                Err(error) => step.result == Err::<Seq<u8>, ErrorView>(error) && step.events.len()
                    == 0,
                Ok(bytes) => if !(bytes.len() >= 37 && bytes[0] == 0x48 && bytes[1] == 0x58
                    && bytes[2] == 0x32 && bytes[3] == 1 && bytes[35] + 256 * bytes[36] >= 16
                    && bytes.len() == 37 + bytes[35] + 256 * bytes[36]) {
                    step.result is Err && step.result->Err_0 is InvalidShardFile
                        && step.events.len() == 0
                } else {
                    match crate::crypto::aes256gcm_open(
                        crate::crypto::argon2id(password, bytes.subrange(7, 23), 19456, 2, 1),
                        bytes.subrange(23, 35),
                        seq![bytes[4], bytes[5], bytes[6]],
                        bytes.subrange(37, bytes.len() as int),
                    ) {
                        None => step.result == Err::<Seq<u8>, ErrorView>(
                            ErrorView::Decrypt {
                                id: bytes[6],
                                reason: ErrorView::Aead("aead::Error"@).message(),
                            },
                        ) && step.events == seq![(bytes[6], false)],
                        Some(payload) => match crate::frost::key_package_parts(payload) {
                            Err(text) => step.result == Err::<Seq<u8>, ErrorView>(
                                ErrorView::Mpc("invalid share payload: "@ + text),
                            ) && step.events == seq![(bytes[6], false)],
                            Ok(parts) => step.events == seq![(bytes[6], true)] && step.result == (
                            match crate::frost::public_key_package_parts(request.group_pub) {
                                Err(text) => Err::<Seq<u8>, ErrorView>(
                                    ErrorView::Mpc("invalid group public package: "@ + text),
                                ),
                                Ok((_, _, verifying_key, _)) => if parts.verifying_key
                                    == verifying_key {
                                    Ok(payload)
                                } else {
                                    Err(ErrorView::MpcGroupMismatch { path: file.path })
                                },
                            }),
                        },
                    }
                },
            }
        }),
{
    if let Ok(bytes) = file.content {
        crate::mpc::frost_share_parses_iff_well_formed(bytes);
        if let Ok(share) = crate::mpc::decode_outcome(bytes) {
            crate::mpc::share_opens_under_its_password_alone(share, password);
        }
    }
}

/// Load and decrypt a participant's share for the request. The share's id and
/// whether its decryption succeeded are appended to `events` (for the audit
/// layer). The share must belong to the group named in the request, so a
/// share/group mismatch fails before any commitment is made.
pub fn load_participant(
    request: &RequestData,
    file: &StoredFile,
    password: &str,
    events: &mut Vec<(u8, bool)>,
) -> (participant: Result<Participant, Error>)
    ensures
        ({
            let step = participant_step(request@, file@, password@);
            &&& final(events)@ == old(events)@ + step.events
            &&& match step.result {
                Ok(key_package) => participant is Ok && participant->Ok_0.key_package@
                    == key_package && participant->Ok_0.session == request.session,
                Err(error) => participant is Err && participant->Err_0@ == error,
            }
        }),
        participant matches Ok(p) ==> {
            &&& p.session == request.session
            &&& crate::frost::public_key_package_parts(request.group_pub@) is Ok
            &&& crate::frost::key_package_parts(p.key_package@) is Ok
            &&& crate::frost::key_package_parts(p.key_package@)->Ok_0.verifying_key
                == crate::frost::public_key_package_parts(request.group_pub@)->Ok_0.2
            &&& file.content matches Ok(bytes) && crate::mpc::decode_outcome(bytes@) matches Ok(
                share,
            ) && share.decrypt_outcome(password@) == Ok::<Seq<u8>, ErrorView>(p.key_package@)
        },
        (participant matches Err(e) && e@ is MpcGroupMismatch) ==> participant->Err_0@
            == (ErrorView::MpcGroupMismatch { path: file.path@ }),
{
    let ghost step = participant_step(request@, file@, password@);
    let share = match FrostShare::read(&file.content) {
        Ok(share) => share,
        Err(e) => {
            assert(events@ =~= old(events)@ + step.events);
            return Err(e);
        },
    };
    let key_package = match share.decrypt(password) {
        Ok(key_package) => {
            events.push((share.id, true));
            key_package
        },
        Err(e) => {
            events.push((share.id, false));
            assert(events@ =~= old(events)@ + step.events);
            return Err(e);
        },
    };
    assert(events@ =~= old(events)@ + step.events);
    let group_pub = match crate::mpc::deserialize_public_key_package(
        request.group_pub.as_slice(),
    ) {
        Ok(group) => group,
        Err(e) => return Err(e),
    };
    if !same_bytes(&key_package.verifying_key(), &group_pub.verifying_key()) {
        return Err(Error::MpcGroupMismatch { path: file.path.clone() });
    }
    Ok(Participant { key_package, session: request.session })
}

/// The commitment of a participant to the nonces that it drew, or the failure to
/// encode it.
pub open spec fn commitment_of(key_package: Seq<u8>, nonces: Seq<u8>) -> Result<
    CommitmentView,
    ErrorView,
> {
    match crate::frost::nonce_commitments_outcome(nonces) {
        Ok(commitments) => Ok(
            CommitmentView {
                participant_id: crate::frost::key_identifier(key_package)[0],
                commitments,
            },
        ),
        Err(text) => Err(ErrorView::Mpc("failed to serialize commitment: "@ + text)),
    }
}

/// A participant drew nonces, and the commitment to them cannot be encoded.
pub open spec fn is_failed_commitment(error: ErrorView, key_package: Seq<u8>) -> bool {
    exists|nonces: Seq<u8>|
        crate::frost::are_nonces_of(nonces, crate::frost::key_signing_share(key_package))
            && #[trigger] commitment_of(key_package, nonces) == Err::<CommitmentView, ErrorView>(
            error,
        )
}

/// FROST round 1 over the air gap: generate fresh nonces and the commitment
/// for a participant. Keeps the nonces for round 2: call
/// [`produce_signature_share`] in the same process while they are still in
/// memory (they are overwritten on drop). It fails only where a nonce that was
/// drawn is zero.
pub fn produce_commitment(key_package: &KeyPackage) -> (commitment: Result<
    (CommitmentData, SigningNonces),
    Error,
>)
    ensures
        match commitment {
            Ok((data, nonces)) => {
                &&& crate::frost::are_nonces_of(
                    nonces@,
                    crate::frost::key_signing_share(key_package@),
                )
                &&& crate::frost::are_nonzero(nonces@)
                &&& commitment_of(key_package@, nonces@) == Ok::<CommitmentView, ErrorView>(data@)
                &&& crate::frost::canonical_commitments(data.commitments@)
                &&& data.participant_id == crate::frost::key_package_parts(
                    key_package@,
                )->Ok_0.identifier[0]
                &&& data.commitments@ == crate::frost::nonce_commitments(nonces@)
            },
            Err(e) => is_failed_commitment(e@, key_package@),
        },
        commitment is Err ==> exists|nonces: Seq<u8>| #[trigger]
            crate::frost::are_nonces_of(
                nonces,
                crate::frost::key_package_parts(key_package@)->Ok_0.signing_share,
            ) && !crate::frost::are_nonzero(nonces),
{
    let (identifier, nonces, commitment) = crate::mpc::participant_round1(key_package);
    match commitment {
        Ok(commitments) => Ok(
            (
                CommitmentData { participant_id: crate::mpc::share_id(&identifier), commitments },
                nonces,
            ),
        ),
        Err(e) => {
            let error = Error::Mpc("failed to serialize commitment: ".to_owned().concat(e.as_str()));
            assert(commitment_of(key_package@, nonces@) == Err::<CommitmentView, ErrorView>(error@));
            Err(error)
        },
    }
}

/// The outcome of producing a signature share: the package must be for the
/// message of the request, and hold the participant's own commitment.
pub open spec fn signature_share_of(
    request: RequestView,
    package: Seq<u8>,
    key_package: Seq<u8>,
    nonces: Seq<u8>,
) -> Result<SignatureShareView, ErrorView> {
    let id = crate::frost::key_identifier(key_package);
    match crate::frost::signing_package_parts(package) {
        Err(text) => Err(ErrorView::Mpc("invalid signing package: "@ + text)),
        Ok((commitments, message)) => if message != request.message {
            Err(
                ErrorView::Mpc("signing package message does not match the accepted request"@),
            )
        } else if !commitments.dom().contains(id) || crate::frost::nonce_commitments_outcome(nonces)
            != Ok::<Seq<u8>, Seq<char>>(commitments[id]) {
            Err(
                ErrorView::Mpc(
                    "signing package does not contain this participant's commitment"@,
                ),
            )
        } else {
            match crate::mpc::round2_outcome(commitments, message, nonces, key_package) {
                Err(error) => Err(error),
                Ok(share) => Ok(SignatureShareView { participant_id: id[0], share }),
            }
        },
    }
}

/// The package is for the message of the request, and holds the participant's
/// own commitment and no fewer than the key package asks for.
pub open spec fn may_sign(
    request: RequestView,
    package: Seq<u8>,
    key_package: Seq<u8>,
    nonces: Seq<u8>,
) -> bool {
    let id = crate::frost::key_identifier(key_package);
    crate::frost::signing_package_parts(package) matches Ok((commitments, message)) && message
        == request.message && commitments.dom().contains(id)
        && crate::frost::nonce_commitments_outcome(nonces) == Ok::<Seq<u8>, Seq<char>>(
        commitments[id],
    ) && commitments.len() >= crate::frost::key_min_signers(key_package)
}

/// FROST round 2 over the air gap: produce the participant's signature share
/// for the packaged request. The nonces are used up. A share only comes out for
/// a package with no fewer commitments than the key package asks for; for one
/// that the participant may sign it does, or FROST's group error does.
///
/// Guards enforced beyond those of FROST itself:
/// * the package's message must equal the request this participant accepted;
/// * the package must contain exactly this participant's commitment.
pub fn produce_signature_share(
    request: &RequestData,
    package_bytes: &[u8],
    key_package: &KeyPackage,
    nonces: SigningNonces,
) -> (share: Result<SignatureShareData, Error>)
    ensures
        crate::error::outcome(share) == signature_share_of(
            request@,
            package_bytes@,
            key_package@,
            nonces@,
        ),
        share matches Ok(data) ==> crate::frost::canonical_scalar(data.share@)
            && crate::frost::signing_package_parts(package_bytes@)->Ok_0.0.len()
            >= crate::frost::key_min_signers(key_package@),
        may_sign(request@, package_bytes@, key_package@, nonces@) ==> share is Ok
            || share->Err_0@ == crate::mpc::unsignable(),
        share matches Ok(data) ==> (crate::frost::signing_package_parts(package_bytes@) matches Ok(
            (commitments, message),
        ) && {
            let id = crate::frost::key_package_parts(key_package@)->Ok_0.identifier;
            &&& message == request.message@
            &&& commitments.dom().contains(id)
            &&& commitments[id] == crate::frost::nonce_commitments(nonces@)
            &&& data.participant_id == id[0]
            &&& crate::frost::frost_signature_share(commitments, message, nonces@, key_package@)
                == Ok::<Seq<u8>, Seq<char>>(data.share@)
        }),
{
    sign_request(request, package_bytes, key_package, &nonces)
}

/// Checks the package against the request and the nonces, and signs it.
fn sign_request(
    request: &RequestData,
    package_bytes: &[u8],
    key_package: &KeyPackage,
    nonces: &SigningNonces,
) -> (share: Result<SignatureShareData, Error>)
    ensures
        crate::error::outcome(share) == signature_share_of(
            request@,
            package_bytes@,
            key_package@,
            nonces@,
        ),
        share matches Ok(data) ==> crate::frost::canonical_scalar(data.share@)
            && crate::frost::signing_package_parts(package_bytes@)->Ok_0.0.len()
            >= crate::frost::key_min_signers(key_package@),
        may_sign(request@, package_bytes@, key_package@, nonces@) ==> share is Ok
            || share->Err_0@ == crate::mpc::unsignable(),
{
    let package = match SigningPackage::deserialize(package_bytes) {
        Ok(package) => package,
        Err(e) => {
            return Err(Error::Mpc("invalid signing package: ".to_owned().concat(e.as_str())));
        },
    };
    if !same_bytes(package.message.as_slice(), request.message.as_slice()) {
        return Err(
            Error::Mpc("signing package message does not match the accepted request".to_owned()),
        );
    }
    let identifier = key_package.identifier();
    let own = match package.commitments.get(&identifier) {
        Some(commitments) => match nonces.commitments() {
            Ok(own) => same_bytes(commitments.as_slice(), own.as_slice()),
            Err(_) => false,
        },
        None => false,
    };
    if !own {
        return Err(
            Error::Mpc("signing package does not contain this participant's commitment".to_owned()),
        );
    }
    match crate::mpc::participant_round2(&package, nonces, key_package) {
        Ok(share) => Ok(
            SignatureShareData { participant_id: crate::mpc::share_id(&identifier), share },
        ),
        Err(e) => Err(e),
    }
}

/// A participant signs if and only if the package holds the message of the
/// request, the participant's own commitment under its identifier, and FROST's
/// round 2 gives a share; the share is then that one. Every failure is a FROST
/// error, and where the package is right it is the one of round 2.
pub proof fn participant_signs_whenever_it_may(
    request: RequestView,
    package: Seq<u8>,
    key_package: Seq<u8>,
    nonces: Seq<u8>,
)
    ensures
        ({
            let id = crate::frost::key_package_parts(key_package)->Ok_0.identifier;
            let outcome = signature_share_of(request, package, key_package, nonces);
            match crate::frost::signing_package_parts(package) {
                Err(text) => outcome == Err::<SignatureShareView, ErrorView>(
                    ErrorView::Mpc("invalid signing package: "@ + text),
                ),
                Ok((commitments, message)) => if message == request.message
                    && commitments.dom().contains(id) && crate::frost::are_nonzero(nonces)
                    && commitments[id] == crate::frost::nonce_commitments(nonces) {
                    outcome == (match crate::frost::frost_signature_share(
                        commitments,
                        message,
                        nonces,
                        key_package,
                    ) {
                        Ok(share) => Ok::<SignatureShareView, ErrorView>(
                            SignatureShareView { participant_id: id[0], share },
                        ),
                        Err(text) => Err(
                            ErrorView::Mpc("failed to produce signature share: "@ + text),
                        ),
                    })
                } else {
                    outcome == Err::<SignatureShareView, ErrorView>(
                        if message != request.message {
                            ErrorView::Mpc(
                                "signing package message does not match the accepted request"@,
                            )
                        } else {
                            ErrorView::Mpc(
                                "signing package does not contain this participant's commitment"@,
                            )
                        },
                    )
                },
            }
        }),
{
}

/// A participant only signs the message of the request that it accepted, and
/// only a package that holds its own commitment.
pub proof fn participant_signs_only_its_request(
    request: RequestView,
    package: Seq<u8>,
    key_package: Seq<u8>,
    nonces: Seq<u8>,
)
    requires
        signature_share_of(request, package, key_package, nonces) is Ok,
    ensures
        crate::frost::signing_package_parts(package) matches Ok((commitments, message)) && message
            == request.message && commitments.dom().contains(
            crate::frost::key_identifier(key_package),
        ) && crate::frost::nonce_commitments_outcome(nonces) == Ok::<Seq<u8>, Seq<char>>(
            commitments[crate::frost::key_identifier(key_package)],
        ),
{
}

/// A participant whose commitment was gathered may sign the package, so that
/// it gets a signature share or FROST's group error; it is not refused before
/// FROST is asked.
pub proof fn gathered_participant_may_sign(
    request: RequestView,
    commitments: Seq<CommitmentData>,
    package: Seq<u8>,
    key_package: Seq<u8>,
    nonces: Seq<u8>,
    i: int,
)
    requires
        package_commitments(request, commitments) matches Ok(map)
            && crate::frost::encodes_package(package, map, request.message),
        0 <= i < commitments.len(),
        crate::frost::key_identifier(key_package) == crate::frost::identifier_of(
            commitments[i].participant_id as int,
        ),
        crate::frost::key_min_signers(key_package) <= crate::frost::group_threshold(
            request.group_pub,
        ),
        crate::frost::nonce_commitments_outcome(nonces) == Ok::<Seq<u8>, Seq<char>>(
            commitments[i].commitments@,
        ),
        crate::frost::canonical_commitments(commitments[i].commitments@),
    ensures
        may_sign(request, package, key_package, nonces),
        signature_share_of(request, package, key_package, nonces) == (
        match crate::mpc::round2_outcome(
            package_commitments(request, commitments)->Ok_0,
            request.message,
            nonces,
            key_package,
        ) {
            Ok(share) => Ok::<SignatureShareView, ErrorView>(
                SignatureShareView { participant_id: commitments[i].participant_id, share },
            ),
            Err(error) => Err(error),
        }),
{
    let members = crate::frost::group_members(request.group_pub);
    let items = decoded_commitments(commitments);
    lemma_admitted(members, items);
    assert(items[i].0 == commitments[i].participant_id);
}

/// Commitments with which the participants of a quorum answer a request: one
/// from each, to nonces none of which is zero.
pub open spec fn are_quorum_commitments(
    quorum: Quorum,
    nonces: Seq<Seq<u8>>,
    commitments: Seq<CommitmentData>,
) -> bool {
    &&& commitments.len() == quorum.numbers.len()
    &&& nonces.len() == quorum.numbers.len()
    &&& crate::mpc::are_committed(nonces)
    &&& forall|k: int|
        0 <= k < commitments.len() ==> (#[trigger] commitments[k]).participant_id
            == quorum.numbers[k] && commitments[k].commitments@ == crate::frost::nonce_commitments(
            nonces[k],
        )
}

/// Distinct shares of one split, no fewer than its threshold, each opened with
/// its password, are loaded for a request of their group as the participants of
/// a quorum.
pub proof fn loaded_shares_are_a_quorum(
    request: RequestView,
    shares: Seq<crate::mpc::NamedShare>,
    seed: Seq<u8>,
    threshold: u8,
    share_count: u8,
    passwords: Seq<Seq<char>>,
    picked: Seq<int>,
    files: Seq<StoredFileView>,
    texts: Seq<Seq<char>>,
) -> (quorum: Quorum)
    requires
        crate::mpc::is_mpc_split(
            shares,
            request.group_pub,
            seed,
            threshold,
            share_count,
            passwords,
        ),
        threshold <= picked.len(),
        picked.no_duplicates(),
        files.len() == picked.len(),
        texts.len() == picked.len(),
        forall|k: int|
            0 <= k < picked.len() ==> {
                &&& 0 <= #[trigger] picked[k] < share_count
                &&& files[k].content == Ok::<Seq<u8>, ErrorView>(
                    shares[picked[k]].share@.encoding(),
                )
                &&& texts[k] == passwords[picked[k]]
            },
    ensures
        quorum.belongs_to(request.group_pub),
        quorum.numbers.len() == picked.len(),
        forall|k: int|
            0 <= k < picked.len() ==> quorum.numbers[k] == #[trigger] picked[k] + 1
                && participant_step(request, files[k], texts[k]).result == Ok::<
                Seq<u8>,
                ErrorView,
            >(quorum.key_packages[k]),
{
    let quorum = crate::mpc::shares_are_a_quorum(
        shares,
        request.group_pub,
        seed,
        threshold,
        share_count,
        passwords,
        picked,
    );
    assert forall|k: int| 0 <= k < picked.len() implies quorum.numbers[k] == #[trigger] picked[k]
        + 1 && participant_step(request, files[k], texts[k]).result == Ok::<Seq<u8>, ErrorView>(
        quorum.key_packages[k],
    ) by {
        let share = shares[picked[k]].share@;
        assert(1 <= quorum.numbers[k] <= quorum.share_count);
        assert(crate::mpc::read_outcome(files[k].content) == Ok::<
            crate::mpc::FrostShareView,
            ErrorView,
        >(share));
    }
    quorum
}

/// The commitments of any threshold of the participants of one split are always
/// gathered, and each of these participants may sign the package that is made
/// of them.
pub proof fn quorum_may_sign(
    request: RequestView,
    quorum: Quorum,
    nonces: Seq<Seq<u8>>,
    commitments: Seq<CommitmentData>,
    package: Seq<u8>,
)
    requires
        quorum.belongs_to(request.group_pub),
        are_quorum_commitments(quorum, nonces, commitments),
    ensures
        package_commitments(request, commitments) matches Ok(map) && map.dom()
            == quorum.identifiers() && (crate::frost::encodes_package(package, map, request.message)
            ==> forall|k: int|
            0 <= k < nonces.len() ==> may_sign(
                request,
                package,
                #[trigger] quorum.key_packages[k],
                nonces[k],
            )),
{
    let members = crate::frost::group_members(request.group_pub);
    let items = decoded_commitments(commitments);
    let ids = quorum.numbers.map_values(|x: int| crate::frost::identifier_of(x));
    assert forall|k: int| 0 <= k < items.len() implies (#[trigger] items[k]).0 != 0
        && items[k].1 is Ok && members.contains(crate::frost::identifier_of(items[k].0 as int))
        && items[k].0 == quorum.numbers[k] by {
        assert(commitments[k].participant_id == quorum.numbers[k]);
        assert(1 <= quorum.numbers[k] <= quorum.share_count);
        assert(crate::frost::are_nonzero(nonces[k]));
        assert(members[quorum.numbers[k] - 1] == crate::frost::identifier_of(quorum.numbers[k]));
    }
    assert forall|j: int, k: int| 0 <= j < k < items.len() implies (#[trigger] items[j]).0 != (
    #[trigger] items[k]).0 by {
        assert(quorum.numbers[j] != quorum.numbers[k]);
    }
    distinct_members_are_gathered(members, quorum.threshold as nat, items);
    lemma_admitted(members, items);
    let map = package_commitments(request, commitments)->Ok_0;
    assert forall|id: Seq<u8>| map.dom().contains(id) <==> ids.to_set().contains(id) by {
        if map.dom().contains(id) {
            let k = choose|k: int|
                0 <= k < items.len() && (#[trigger] items[k]).0 != 0 && id
                    == crate::frost::identifier_of(items[k].0 as int) && Ok::<
                    Seq<u8>,
                    Seq<char>,
                >(map[id]) == items[k].1;
            assert(ids[k] == id);
        }
        if ids.contains(id) {
            let k = choose|k: int| 0 <= k < ids.len() && ids[k] == id;
            assert(items[k].0 == quorum.numbers[k]);
        }
    }
    assert(map.dom() =~= quorum.identifiers());
    if crate::frost::encodes_package(package, map, request.message) {
        assert forall|k: int| 0 <= k < nonces.len() implies may_sign(
            request,
            package,
            #[trigger] quorum.key_packages[k],
            nonces[k],
        ) by {
            assert(items[k].0 == quorum.numbers[k]);
            assert(commitments[k].participant_id == quorum.numbers[k]);
            assert(1 <= quorum.numbers[k] <= quorum.share_count);
            assert(crate::frost::are_nonzero(nonces[k]));
            gathered_participant_may_sign(
                request,
                commitments,
                package,
                quorum.key_packages[k],
                nonces[k],
                k,
            );
        }
    }
}

/// The signature shares that the participants of a quorum produce for the
/// package of their commitments are complete, so that they are finalized to a
/// signature.
pub proof fn quorum_finalizes(
    request: RequestView,
    quorum: Quorum,
    nonces: Seq<Seq<u8>>,
    commitments: Seq<CommitmentData>,
    package: Seq<u8>,
    shares: Seq<SignatureShareData>,
)
    requires
        quorum.belongs_to(request.group_pub),
        are_quorum_commitments(quorum, nonces, commitments),
        package_commitments(request, commitments) matches Ok(map)
            && crate::frost::encodes_package(package, map, request.message),
        shares.len() == nonces.len(),
        forall|k: int|
            0 <= k < shares.len() ==> crate::frost::canonical_scalar((#[trigger] shares[k]).share@)
                && signature_share_of(request, package, quorum.key_packages[k], nonces[k]) == Ok::<
                SignatureShareView,
                ErrorView,
            >(shares[k]@),
    ensures
        are_complete_shares(package, shares, request.group_pub),
{
    quorum_may_sign(request, quorum, nonces, commitments, package);
    assert forall|k: int| 0 <= k < shares.len() implies made_share(
        quorum,
        nonces,
        package,
        #[trigger] shares[k],
        k,
    ) by {
        assert(may_sign(request, package, quorum.key_packages[k], nonces[k]));
        assert(1 <= quorum.numbers[k] <= quorum.share_count);
        assert(crate::frost::are_nonzero(nonces[k]));
        assert(shares[k]@.participant_id == shares[k].participant_id);
        assert(shares[k]@.share == shares[k].share@);
    }
    assert(are_made_for(quorum, nonces, package, shares));
}

/// Well-formed commitments from distinct members of the group, no fewer than
/// the threshold, are always gathered.
pub proof fn distinct_members_are_gathered(
    members: Seq<Seq<u8>>,
    min: nat,
    items: Seq<(u8, Result<Seq<u8>, Seq<char>>)>,
)
    requires
        min <= items.len(),
        forall|i: int|
            0 <= i < items.len() ==> (#[trigger] items[i]).0 != 0 && items[i].1 is Ok
                && members.contains(crate::frost::identifier_of(items[i].0 as int)),
        forall|i: int, j: int|
            0 <= i < j < items.len() ==> (#[trigger] items[i]).0 != (#[trigger] items[j]).0,
    ensures
        gather_outcome(members, min, items) is Ok,
    decreases items.len(),
{
    if items.len() > 0 {
        let fewer = items.drop_last();
        distinct_members_are_gathered(members, 0, fewer);
        lemma_admitted(members, fewer);
        let before = admit_commitments(members, fewer)->Ok_0;
        let last = items[items.len() - 1];
        assert(items.last() == last);
        let id = crate::frost::identifier_of(last.0 as int);
        if before.dom().contains(id) {
            let i = choose|i: int|
                0 <= i < fewer.len() && (#[trigger] fewer[i]).0 != 0 && id
                    == crate::frost::identifier_of(fewer[i].0 as int) && Ok::<
                    Seq<u8>,
                    Seq<char>,
                >(before[id]) == fewer[i].1;
            assert(items[i].0 != last.0);
            assert(id[0] == last.0);
            assert(crate::frost::identifier_of(fewer[i].0 as int)[0] == fewer[i].0);
        }
    }
}

/// Commitments are gathered if and only if they are no fewer than the threshold
/// and each is well-formed and from another member of the group. Too few are
/// reported as such; every other failure is a FROST error.
pub proof fn gathered_iff_distinct_members(
    members: Seq<Seq<u8>>,
    min: nat,
    items: Seq<(u8, Result<Seq<u8>, Seq<char>>)>,
)
    ensures
        gather_outcome(members, min, items) is Ok <==> {
            &&& min <= items.len()
            &&& forall|i: int|
                0 <= i < items.len() ==> (#[trigger] items[i]).0 != 0 && items[i].1 is Ok
                    && members.contains(crate::frost::identifier_of(items[i].0 as int))
            &&& forall|i: int, j: int|
                0 <= i < j < items.len() ==> (#[trigger] items[i]).0 != (#[trigger] items[j]).0
        },
        items.len() < min ==> gather_outcome(members, min, items) == Err::<
            Map<Seq<u8>, Seq<u8>>,
            ErrorView,
        >(ErrorView::NotEnoughShares(min, items.len())),
        items.len() >= min ==> (gather_outcome(members, min, items) matches Err(error) ==> error
            is Mpc),
{
    lemma_gathered(members, items);
    if gather_outcome(members, min, items) is Err && items.len() >= min {
        let fine = (forall|i: int|
            0 <= i < items.len() ==> (#[trigger] items[i]).0 != 0 && items[i].1 is Ok
                && members.contains(crate::frost::identifier_of(items[i].0 as int))) && (forall|
            i: int,
            j: int,
        |
            0 <= i < j < items.len() ==> (#[trigger] items[i]).0 != (#[trigger] items[j]).0);
        if fine {
            distinct_members_are_gathered(members, min, items);
        }
    }
}

proof fn lemma_gathered(members: Seq<Seq<u8>>, items: Seq<(u8, Result<Seq<u8>, Seq<char>>)>)
    ensures
        admit_commitments(members, items) is Ok ==> {
            &&& forall|i: int|
                0 <= i < items.len() ==> (#[trigger] items[i]).0 != 0 && items[i].1 is Ok
                    && members.contains(crate::frost::identifier_of(items[i].0 as int))
            &&& forall|i: int, j: int|
                0 <= i < j < items.len() ==> (#[trigger] items[i]).0 != (#[trigger] items[j]).0
        },
        admit_commitments(members, items) matches Err(error) ==> error is Mpc,
    decreases items.len(),
{
    if items.len() > 0 {
        let fewer = items.drop_last();
        lemma_gathered(members, fewer);
        lemma_admitted(members, fewer);
        if admit_commitments(members, items) is Ok {
            let last = items[items.len() - 1];
            assert(items.last() == last);
            assert forall|i: int| 0 <= i < items.len() implies (#[trigger] items[i]).0 != 0
                && items[i].1 is Ok && members.contains(
                crate::frost::identifier_of(items[i].0 as int),
            ) by {
                if i < items.len() - 1 {
                    assert(fewer[i] == items[i]);
                }
            }
            assert forall|i: int, j: int| 0 <= i < j < items.len() implies (#[trigger] items[i]).0
                != (#[trigger] items[j]).0 by {
                assert(fewer[i] == items[i]);
                if j < items.len() - 1 {
                    assert(fewer[j] == items[j]);
                }
            }
        }
    }
}

/// The first commitment that is refused is named: one with the id 0, one that is
/// not from a member of the group, one from a participant who has committed
/// already, or one that is malformed, in this order.
pub proof fn refused_commitment_is_named(
    members: Seq<Seq<u8>>,
    min: nat,
    items: Seq<(u8, Result<Seq<u8>, Seq<char>>)>,
    k: int,
)
    requires
        min <= items.len(),
        0 <= k < items.len(),
        forall|i: int|
            0 <= i < k ==> (#[trigger] items[i]).0 != 0 && items[i].1 is Ok && members.contains(
                crate::frost::identifier_of(items[i].0 as int),
            ),
        forall|i: int, j: int|
            0 <= i < j < k ==> (#[trigger] items[i]).0 != (#[trigger] items[j]).0,
    ensures
        ({
            let outcome = gather_outcome(members, min, items);
            let id = items[k].0;
            let number = crate::text::decimal_text(id as nat);
            let member = members.contains(crate::frost::identifier_of(id as int));
            let repeated = exists|i: int| 0 <= i < k && (#[trigger] items[i]).0 == id;
            &&& id == 0 ==> outcome == Err::<Map<Seq<u8>, Seq<u8>>, ErrorView>(
                ErrorView::Mpc("participant id 0 is invalid (the default split uses 1..=n)"@),
            )
            &&& id != 0 && !member ==> outcome == Err::<Map<Seq<u8>, Seq<u8>>, ErrorView>(
                ErrorView::Mpc(
                    "commitment from participant "@ + number + " is not a member of this group"@,
                ),
            )
            &&& id != 0 && member && repeated ==> outcome == Err::<
                Map<Seq<u8>, Seq<u8>>,
                ErrorView,
            >(ErrorView::Mpc("duplicate commitment from participant "@ + number))
            &&& id != 0 && member && !repeated ==> (items[k].1 matches Err(text) ==> outcome
                == Err::<Map<Seq<u8>, Seq<u8>>, ErrorView>(
                ErrorView::Mpc("invalid commitment from participant "@ + number + ": "@ + text),
            ))
        }),
{
    let front = items.take(k);
    assert forall|i: int| 0 <= i < front.len() implies (#[trigger] front[i]) == items[i] by {}
    assert forall|i: int, j: int| 0 <= i < j < front.len() implies (#[trigger] front[i]).0 != (
    #[trigger] front[j]).0 by {
        assert(front[i] == items[i] && front[j] == items[j]);
    }
    distinct_members_are_gathered(members, 0, front);
    lemma_admitted(members, front);
    let next = items.take(k + 1);
    assert(next.drop_last() =~= front);
    assert(next.last() == items[k]);
    let map = admit_commitments(members, front)->Ok_0;
    let id = crate::frost::identifier_of(items[k].0 as int);
    if items[k].0 != 0 && map.dom().contains(id) {
        let i = choose|i: int|
            0 <= i < front.len() && (#[trigger] front[i]).0 != 0 && id
                == crate::frost::identifier_of(front[i].0 as int) && Ok::<Seq<u8>, Seq<char>>(
                map[id],
            ) == front[i].1;
        assert(id[0] == items[k].0 && crate::frost::identifier_of(front[i].0 as int)[0]
            == front[i].0);
        assert(items[i].0 == items[k].0);
    }
    if exists|i: int| 0 <= i < k && (#[trigger] items[i]).0 == items[k].0 {
        let i = choose|i: int| 0 <= i < k && (#[trigger] items[i]).0 == items[k].0;
        assert(front[i].0 == items[k].0);
        assert(map.dom().contains(id));
    }
    if admit_commitments(members, next) is Err {
        lemma_commitment_refused(members, items, k + 1);
    }
}

/// Signature shares are admitted if and only if each is well-formed and from
/// another member of the group who committed.
pub proof fn admitted_iff_distinct_committed_members(
    members: Seq<Seq<u8>>,
    committed: Map<Seq<u8>, Seq<u8>>,
    items: Seq<(u8, Result<Seq<u8>, Seq<char>>)>,
)
    ensures
        admit_shares(members, committed, items) is Ok <==> {
            &&& forall|i: int|
                0 <= i < items.len() ==> (#[trigger] items[i]).0 != 0 && items[i].1 is Ok
                    && members.contains(crate::frost::identifier_of(items[i].0 as int))
                    && committed.dom().contains(crate::frost::identifier_of(items[i].0 as int))
            &&& forall|i: int, j: int|
                0 <= i < j < items.len() ==> (#[trigger] items[i]).0 != (#[trigger] items[j]).0
        },
        admit_shares(members, committed, items) matches Err(error) ==> error is Mpc,
{
    lemma_refusal_is_mpc(members, committed, items);
    admitted_shares_are_distinct(members, committed, items);
    let fine = (forall|i: int|
        0 <= i < items.len() ==> {
            let id = crate::frost::identifier_of((#[trigger] items[i]).0 as int);
            items[i].0 != 0 && items[i].1 is Ok && members.contains(id)
                && committed.dom().contains(id)
        }) && (forall|i: int, j: int|
        0 <= i < j < items.len() ==> (#[trigger] items[i]).0 != (#[trigger] items[j]).0);
    if fine {
        lemma_distinct_shares_are_admitted(members, committed, items);
    }
}

/// The first signature share that is refused is named: one with the id 0, one
/// that is not from a member of the group, one from a participant who has no
/// commitment in the package, one from a participant who has sent one already,
/// or one that is malformed, in this order.
pub proof fn refused_share_is_named(
    members: Seq<Seq<u8>>,
    committed: Map<Seq<u8>, Seq<u8>>,
    items: Seq<(u8, Result<Seq<u8>, Seq<char>>)>,
    k: int,
)
    requires
        0 <= k < items.len(),
        forall|i: int|
            0 <= i < k ==> {
                let id = crate::frost::identifier_of((#[trigger] items[i]).0 as int);
                items[i].0 != 0 && items[i].1 is Ok && members.contains(id)
                    && committed.dom().contains(id)
            },
        forall|i: int, j: int|
            0 <= i < j < k ==> (#[trigger] items[i]).0 != (#[trigger] items[j]).0,
    ensures
        ({
            let outcome = admit_shares(members, committed, items);
            let id = items[k].0;
            let number = crate::text::decimal_text(id as nat);
            let member = members.contains(crate::frost::identifier_of(id as int));
            let has_committed = committed.dom().contains(crate::frost::identifier_of(id as int));
            let repeated = exists|i: int| 0 <= i < k && (#[trigger] items[i]).0 == id;
            &&& id == 0 ==> outcome == Err::<Map<Seq<u8>, Seq<u8>>, ErrorView>(
                ErrorView::Mpc("participant id 0 is invalid (the default split uses 1..=n)"@),
            )
            &&& id != 0 && !member ==> outcome == Err::<Map<Seq<u8>, Seq<u8>>, ErrorView>(
                ErrorView::Mpc(
                    "signature share from participant "@ + number
                        + " is not a member of this group"@,
                ),
            )
            &&& id != 0 && member && !has_committed ==> outcome == Err::<
                Map<Seq<u8>, Seq<u8>>,
                ErrorView,
            >(
                ErrorView::Mpc(
                    "signature share from participant "@ + number
                        + " has no commitment in the signing package"@,
                ),
            )
            &&& id != 0 && member && has_committed && repeated ==> outcome == Err::<
                Map<Seq<u8>, Seq<u8>>,
                ErrorView,
            >(ErrorView::Mpc("duplicate signature share from participant "@ + number))
            &&& id != 0 && member && has_committed && !repeated ==> (items[k].1 matches Err(text)
                ==> outcome == Err::<Map<Seq<u8>, Seq<u8>>, ErrorView>(
                ErrorView::Mpc(
                    "invalid signature share from participant "@ + number + ": "@ + text,
                ),
            ))
        }),
{
    let front = items.take(k);
    assert forall|i: int| 0 <= i < front.len() implies (#[trigger] front[i]) == items[i] by {}
    assert forall|i: int, j: int| 0 <= i < j < front.len() implies (#[trigger] front[i]).0 != (
    #[trigger] front[j]).0 by {
        assert(front[i] == items[i] && front[j] == items[j]);
    }
    lemma_distinct_shares_are_admitted(members, committed, front);
    admitted_shares_are_distinct(members, committed, front);
    let next = items.take(k + 1);
    assert(next.drop_last() =~= front);
    assert(next.last() == items[k]);
    let map = admit_shares(members, committed, front)->Ok_0;
    let id = crate::frost::identifier_of(items[k].0 as int);
    if items[k].0 != 0 && map.dom().contains(id) {
        let i = choose|i: int|
            0 <= i < front.len() && id == crate::frost::identifier_of(
                (#[trigger] front[i]).0 as int,
            );
        assert(id[0] == items[k].0 && crate::frost::identifier_of(front[i].0 as int)[0]
            == front[i].0);
        assert(items[i].0 == items[k].0);
    }
    if exists|i: int| 0 <= i < k && (#[trigger] items[i]).0 == items[k].0 {
        let i = choose|i: int| 0 <= i < k && (#[trigger] items[i]).0 == items[k].0;
        assert(front[i].0 == items[k].0);
        assert(map.dom().contains(id));
    }
    if admit_shares(members, committed, next) is Err {
        lemma_share_refused(members, committed, items, k + 1);
    }
}

/// A package is built for a request if and only if its group package can be
/// decoded and the commitments are well-formed, each from another member of the
/// group, and no fewer than its threshold. The package then holds each
/// participant's commitments, in canonical form, under its identifier, and
/// those of no one else.
pub proof fn package_is_built_of_distinct_members(
    request: RequestView,
    commitments: Seq<CommitmentData>,
)
    ensures
        package_commitments(request, commitments) is Ok <==> {
            &&& crate::frost::public_key_package_parts(request.group_pub) matches Ok(
                (members, _, _, min),
            )
            &&& min matches Some(min) ==> commitments.len() >= min
            &&& forall|i: int|
                0 <= i < commitments.len() ==> (#[trigger] commitments[i]).participant_id != 0
                    && crate::frost::commitments_encoding(commitments[i].commitments@) is Ok
                    && members.contains(
                    crate::frost::identifier_of(commitments[i].participant_id as int),
                )
            &&& forall|i: int, j: int|
                0 <= i < j < commitments.len() ==> (#[trigger] commitments[i]).participant_id != (
                #[trigger] commitments[j]).participant_id
        },
        package_commitments(request, commitments) matches Ok(map) ==> {
            &&& map.len() == commitments.len()
            &&& forall|i: int|
                0 <= i < commitments.len() ==> {
                    let id = crate::frost::identifier_of(
                        (#[trigger] commitments[i]).participant_id as int,
                    );
                    map.dom().contains(id) && crate::frost::commitments_encoding(
                        commitments[i].commitments@,
                    ) == Ok::<Seq<u8>, Seq<char>>(map[id])
                }
        },
        match crate::frost::public_key_package_parts(request.group_pub) {
            Err(text) => package_commitments(request, commitments) == Err::<
                Map<Seq<u8>, Seq<u8>>,
                ErrorView,
            >(ErrorView::Mpc("invalid group public package: "@ + text)),
            Ok((members, _, _, min)) => package_commitments(request, commitments)
                == gather_outcome(
                members,
                match min {
                    Some(min) => min as nat,
                    None => 0,
                },
                Seq::new(
                    commitments.len(),
                    |i: int|
                        (
                            commitments[i].participant_id,
                            crate::frost::commitments_encoding(commitments[i].commitments@),
                        ),
                ),
            ),
        },
{
    let items = decoded_commitments(commitments);
    assert(items =~= Seq::new(
        commitments.len(),
        |i: int|
            (
                commitments[i].participant_id,
                crate::frost::commitments_encoding(commitments[i].commitments@),
            ),
    ));
    assert forall|i: int| 0 <= i < commitments.len() implies #[trigger] items[i] == (
        commitments[i].participant_id,
        crate::frost::commitments_encoding(commitments[i].commitments@),
    ) by {}
    if crate::frost::public_key_package_parts(request.group_pub) is Ok {
        let members = crate::frost::group_members(request.group_pub);
        let min = crate::frost::group_threshold(request.group_pub);
        gathered_iff_distinct_members(members, min, items);
        lemma_admitted(members, items);
        if package_commitments(request, commitments) is Ok {
            assert forall|i: int|
                0 <= i < commitments.len() implies (#[trigger] commitments[i]).participant_id != 0
                && crate::frost::commitments_encoding(commitments[i].commitments@) is Ok
                && members.contains(
                crate::frost::identifier_of(commitments[i].participant_id as int),
            ) by {
                assert(items[i].0 != 0);
            }
            assert forall|i: int, j: int| 0 <= i < j < commitments.len() implies (
            #[trigger] commitments[i]).participant_id != (
            #[trigger] commitments[j]).participant_id by {
                assert(items[i].0 != items[j].0);
            }
            assert forall|i: int| 0 <= i < commitments.len() implies {
                let id = crate::frost::identifier_of(
                    (#[trigger] commitments[i]).participant_id as int,
                );
                let map = package_commitments(request, commitments)->Ok_0;
                map.dom().contains(id) && crate::frost::commitments_encoding(
                    commitments[i].commitments@,
                ) == Ok::<Seq<u8>, Seq<char>>(map[id])
            } by {
                assert(items[i].0 == commitments[i].participant_id);
            }
        }
        if (forall|i: int|
            0 <= i < commitments.len() ==> (#[trigger] commitments[i]).participant_id != 0
                && crate::frost::commitments_encoding(commitments[i].commitments@) is Ok
                && members.contains(
                crate::frost::identifier_of(commitments[i].participant_id as int),
            )) && (forall|i: int, j: int|
            0 <= i < j < commitments.len() ==> (#[trigger] commitments[i]).participant_id != (
            #[trigger] commitments[j]).participant_id) {
            assert forall|i: int| 0 <= i < items.len() implies (#[trigger] items[i]).0 != 0
                && items[i].1 is Ok && members.contains(
                crate::frost::identifier_of(items[i].0 as int),
            ) by {
                assert(commitments[i].participant_id != 0);
            }
            assert forall|i: int, j: int| 0 <= i < j < items.len() implies (#[trigger] items[i]).0
                != (#[trigger] items[j]).0 by {
                assert(commitments[i].participant_id != commitments[j].participant_id);
            }
        }
    }
}

/// A signature is finalized if and only if the package and the group can be
/// decoded, each share is a scalar and from another member of the group who
/// committed in the package, and FROST aggregates them to a signature of 64
/// bytes that verifies under the group's key; the signature is then that one,
/// over the package's message.
pub proof fn finalized_iff_the_shares_aggregate(
    package: Seq<u8>,
    shares: Seq<SignatureShareData>,
    group_pub: Seq<u8>,
)
    ensures
        finalize_outcome(package, shares, group_pub) is Ok <==> {
            &&& crate::frost::signing_package_parts(package) matches Ok((commitments, message))
            &&& crate::frost::public_key_package_parts(group_pub) matches Ok((members, _, key, _))
            &&& forall|i: int|
                0 <= i < shares.len() ==> {
                    let id = crate::frost::identifier_of(
                        (#[trigger] shares[i]).participant_id as int,
                    );
                    shares[i].participant_id != 0 && crate::frost::canonical_scalar(
                        shares[i].share@,
                    ) && members.contains(id) && commitments.dom().contains(id)
                }
            &&& forall|i: int, j: int|
                0 <= i < j < shares.len() ==> (#[trigger] shares[i]).participant_id != (
                #[trigger] shares[j]).participant_id
            &&& crate::frost::frost_aggregated(
                commitments,
                message,
                admit_shares(members, commitments, decoded_shares(shares))->Ok_0,
                group_pub,
            ) matches Ok(signature)
            &&& signature.len() == 64
            &&& crate::frost::frost_verifies(key, message, signature)
        },
        finalize_outcome(package, shares, group_pub) matches Ok(signed) ==> {
            let (commitments, message) = crate::frost::signing_package_parts(package)->Ok_0;
            let map = admit_shares(
                crate::frost::public_key_package_parts(group_pub)->Ok_0.0,
                commitments,
                decoded_shares(shares),
            )->Ok_0;
            &&& signed.verifying_key == crate::frost::public_key_package_parts(group_pub)->Ok_0.2
            &&& crate::frost::frost_verifies(signed.verifying_key, message, signed.signature)
            &&& crate::frost::frost_aggregated(commitments, message, map, group_pub) == Ok::<
                Seq<u8>,
                Seq<char>,
            >(signed.signature)
            &&& map.len() == shares.len()
            &&& forall|i: int|
                0 <= i < shares.len() ==> {
                    let id = crate::frost::identifier_of(
                        (#[trigger] shares[i]).participant_id as int,
                    );
                    map.dom().contains(id) && map[id] == shares[i].share@
                }
        },
        match crate::frost::signing_package_parts(package) {
            Err(text) => finalize_outcome(package, shares, group_pub) == Err::<
                MpcSignatureView,
                ErrorView,
            >(ErrorView::Mpc("invalid signing package: "@ + text)),
            Ok((commitments, message)) => match crate::frost::public_key_package_parts(group_pub) {
                Err(text) => finalize_outcome(package, shares, group_pub) == Err::<
                    MpcSignatureView,
                    ErrorView,
                >(ErrorView::Mpc("invalid group public package: "@ + text)),
                Ok((members, _, key, _)) => match admit_shares(
                    members,
                    commitments,
                    Seq::new(
                        shares.len(),
                        |i: int|
                            (
                                shares[i].participant_id,
                                crate::frost::signature_share_encoding(shares[i].share@),
                            ),
                    ),
                ) {
                    Err(error) => finalize_outcome(package, shares, group_pub) == Err::<
                        MpcSignatureView,
                        ErrorView,
                    >(error),
                    Ok(map) => match crate::frost::frost_aggregated(
                        commitments,
                        message,
                        map,
                        group_pub,
                    ) {
                        Err(text) => finalize_outcome(package, shares, group_pub) == Err::<
                            MpcSignatureView,
                            ErrorView,
                        >(ErrorView::Mpc("failed to aggregate signature: "@ + text)),
                        Ok(signature) => {
                            &&& !crate::frost::frost_verifies(key, message, signature)
                                ==> finalize_outcome(package, shares, group_pub) == Err::<
                                MpcSignatureView,
                                ErrorView,
                            >(ErrorView::Mpc("aggregated signature failed FROST verification"@))
                            &&& crate::frost::frost_verifies(key, message, signature)
                                && signature.len() != 64 ==> finalize_outcome(
                                package,
                                shares,
                                group_pub,
                            ) == Err::<MpcSignatureView, ErrorView>(
                                ErrorView::Mpc("signature is not 64 bytes"@),
                            )
                        },
                    },
                },
            },
        },
{
    let items = decoded_shares(shares);
    assert(items =~= Seq::new(
        shares.len(),
        |i: int|
            (
                shares[i].participant_id,
                crate::frost::signature_share_encoding(shares[i].share@),
            ),
    ));
    assert forall|i: int| 0 <= i < shares.len() implies #[trigger] items[i] == (
        shares[i].participant_id,
        crate::frost::signature_share_encoding(shares[i].share@),
    ) by {}
    if crate::frost::signing_package_parts(package) is Ok
        && crate::frost::public_key_package_parts(group_pub) is Ok {
        let (commitments, message) = crate::frost::signing_package_parts(package)->Ok_0;
        let members = crate::frost::public_key_package_parts(group_pub)->Ok_0.0;
        admitted_iff_distinct_committed_members(members, commitments, items);
        admitted_shares_are_distinct(members, commitments, items);
        if admit_shares(members, commitments, items) is Ok {
            let map = admit_shares(members, commitments, items)->Ok_0;
            assert forall|i: int| 0 <= i < shares.len() implies {
                let id = crate::frost::identifier_of(
                    (#[trigger] shares[i]).participant_id as int,
                );
                shares[i].participant_id != 0 && crate::frost::canonical_scalar(shares[i].share@)
                    && members.contains(id) && commitments.dom().contains(id)
                    && map.dom().contains(id) && map[id] == shares[i].share@
            } by {
                assert(items[i].0 == shares[i].participant_id);
            }
            assert forall|i: int, j: int| 0 <= i < j < shares.len() implies (
            #[trigger] shares[i]).participant_id != (#[trigger] shares[j]).participant_id by {
                assert(items[i].0 != items[j].0);
            }
        }
        if (forall|i: int|
            0 <= i < shares.len() ==> {
                let id = crate::frost::identifier_of(
                    (#[trigger] shares[i]).participant_id as int,
                );
                shares[i].participant_id != 0 && crate::frost::canonical_scalar(shares[i].share@)
                    && members.contains(id) && commitments.dom().contains(id)
            }) && (forall|i: int, j: int|
            0 <= i < j < shares.len() ==> (#[trigger] shares[i]).participant_id != (
            #[trigger] shares[j]).participant_id) {
            assert forall|i: int| 0 <= i < items.len() implies (#[trigger] items[i]).0 != 0
                && items[i].1 is Ok && members.contains(
                crate::frost::identifier_of(items[i].0 as int),
            ) && commitments.dom().contains(crate::frost::identifier_of(items[i].0 as int)) by {
                assert(shares[i].participant_id != 0);
            }
            assert forall|i: int, j: int| 0 <= i < j < items.len() implies (#[trigger] items[i]).0
                != (#[trigger] items[j]).0 by {
                assert(shares[i].participant_id != shares[j].participant_id);
            }
        }
    }
}

} // verus!
