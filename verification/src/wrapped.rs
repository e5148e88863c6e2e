//! Secrets in an envelope: a version tag and an optional MIME type travel
//! with the secret through the split and come back with it.
//!
//! The envelope is one byte of version tag, one byte that says whether a
//! MIME type follows, then, where it does, the length of the MIME type in
//! four bytes and the MIME type in UTF-8, and then the secret.

use vstd::prelude::*;
use vstd::string::*;
use vstd::utf8::{decode_utf8, encode_utf8, valid_utf8};
use crate::error::{RecoveryError, RecoveryFailure, SplitError};
use crate::share::valid_parameters;
use crate::split::{split_shares, valid_rows};
use crate::sss::{text_recovery_outcome, written, MAX_SECRET_LEN};
use crate::wire::{be32, from_be32, lemma_be32, push_be32, push_range, read_be32};

verus! {

/// The formats of the envelope.
#[derive(Debug, Clone, Copy, PartialEq, Eq, Structural)]
pub enum EnvelopeVersion {
    InitialRelease,
}

/// A secret with what its envelope says of it.
#[derive(Debug, Clone, PartialEq, Eq)]
pub struct WrappedSecret {
    pub version: EnvelopeVersion,
    pub secret: Vec<u8>,
    /// The MIME type; `None` where the envelope has none, which is not the
    /// same as an empty one.
    pub mime_type: Option<String>,
}

/// The mathematical value of a wrapped secret.
pub struct WrappedView {
    pub version: EnvelopeVersion,
    pub secret: Seq<u8>,
    pub mime_type: Option<Seq<char>>,
}

impl View for WrappedSecret {
    type V = WrappedView;

    open spec fn view(&self) -> WrappedView {
        WrappedView {
            version: self.version,
            secret: self.secret@,
            mime_type: match self.mime_type {
                Some(m) => Some(m@),
                None => None,
            },
        }
    }
}

/// The format's name.
pub open spec fn version_name(v: EnvelopeVersion) -> Seq<char> {
    "INITIAL_RELEASE"@
}

impl EnvelopeVersion {
    /// The name under which the format is known.
    pub fn name(&self) -> (r: &'static str)
        ensures
            r@ == version_name(*self),
    {
        "INITIAL_RELEASE"
    }
}

/// The bytes of the MIME type of an envelope; none where it has none.
pub open spec fn mime_bytes(mime_type: Option<Seq<char>>) -> Seq<u8> {
    match mime_type {
        Some(m) => encode_utf8(m),
        None => Seq::empty(),
    }
}

/// The envelope of a secret.
pub open spec fn envelope_bytes(w: WrappedView) -> Seq<u8> {
    match w.mime_type {
        None => seq![0u8, 0u8] + w.secret,
        Some(m) => seq![0u8, 1u8] + be32(encode_utf8(m).len() as u32) + encode_utf8(m) + w.secret,
    }
}

/// What an envelope holds; an error where the bytes are no envelope, and
/// another where their version tag is not known.
pub open spec fn parse_envelope(b: Seq<u8>) -> Result<WrappedView, RecoveryFailure> {
    if b.len() == 0 {
        Err(RecoveryFailure::MalformedEnvelope)
    } else if b[0] != 0 {
        Err(RecoveryFailure::UnsupportedEnvelopeVersion)
    } else if b.len() < 2 {
        Err(RecoveryFailure::MalformedEnvelope)
    } else if b[1] == 0 {
        Ok(
            WrappedView {
                version: EnvelopeVersion::InitialRelease,
                secret: b.subrange(2, b.len() as int),
                mime_type: None,
            },
        )
    } else if b[1] != 1 || b.len() < 6 {
        Err(RecoveryFailure::MalformedEnvelope)
    } else {
        let m = from_be32(b.subrange(2, 6)) as int;
        if 6 + m > b.len() || !valid_utf8(b.subrange(6, 6 + m)) {
            Err(RecoveryFailure::MalformedEnvelope)
        } else {
            Ok(
                WrappedView {
                    version: EnvelopeVersion::InitialRelease,
                    secret: b.subrange(6 + m, b.len() as int),
                    mime_type: Some(decode_utf8(b.subrange(6, 6 + m))),
                },
            )
        }
    }
}

/// What a recovery of a wrapped secret from the given texts returns.
pub open spec fn wrapped_recovery_outcome(texts: Seq<Seq<char>>, verify: bool) -> Result<
    WrappedView,
    RecoveryFailure,
> {
    match text_recovery_outcome(texts, verify) {
        Ok(bytes) => parse_envelope(bytes),
        Err(e) => Err(e),
    }
}

/// The mathematical value of what a recovery of a wrapped secret returned.
pub open spec fn wrapped_outcome_view(r: Result<WrappedSecret, RecoveryError>) -> Result<
    WrappedView,
    RecoveryFailure,
> {
    match r {
        Ok(w) => Ok(w@),
        Err(e) => Err(e@),
    }
}

/// An envelope opens to what was put into it.
pub proof fn lemma_envelope_opens(w: WrappedView)
    requires
        mime_bytes(w.mime_type).len() <= u32::MAX,
    ensures
        parse_envelope(envelope_bytes(w)) == Ok::<WrappedView, RecoveryFailure>(w),
{
    let b = envelope_bytes(w);
    match w.mime_type {
        None => {
            assert(b.subrange(2, b.len() as int) =~= w.secret);
        },
        Some(m) => {
            let e = encode_utf8(m);
            let n = e.len() as u32;
            lemma_be32(n);
            vstd::utf8::encode_utf8_valid_utf8(m);
            vstd::utf8::encode_utf8_decode_utf8(m);
            assert(b.subrange(2, 6) =~= be32(n));
            assert(b.subrange(6, 6 + n) =~= e);
            assert(b.subrange(6 + n, b.len() as int) =~= w.secret);
        },
    }
}

/// Calls `String::from_utf8`. Trusted: it accepts the bytes where they are
/// valid UTF-8, and only there, and the string is then what they encode.
#[verifier::external_body]
fn string_from_utf8(bytes: Vec<u8>) -> (r: Option<String>)
    ensures
        r is Some <==> valid_utf8(bytes@),
        r matches Some(s) ==> s@ == decode_utf8(bytes@),
{
    match String::from_utf8(bytes) {
        Ok(s) => Some(s),
        Err(_) => None,
    }
}

/// Puts a secret into an envelope.
pub fn wrap(secret: &Vec<u8>, mime_type: &Option<String>) -> (r: Vec<u8>)
    requires
        mime_bytes(
            match *mime_type {
                Some(m) => Some(m@),
                None => None,
            },
        ).len() <= u32::MAX,
    ensures
        r@ == envelope_bytes(
            (WrappedView {
                version: EnvelopeVersion::InitialRelease,
                secret: secret@,
                mime_type: match *mime_type {
                    Some(m) => Some(m@),
                    None => None,
                },
            }),
        ),
{
    let mut out: Vec<u8> = Vec::new();
    out.push(0);
    match mime_type {
        None => {
            out.push(0);
        },
        Some(m) => {
            out.push(1);
            let encoded = m.as_str().as_bytes_vec();
            push_be32(&mut out, encoded.len() as u32);
            push_range(&mut out, &encoded, 0, encoded.len());
            assert(encoded@.subrange(0, encoded.len() as int) =~= encoded@);
        },
    }
    let ghost head = out@;
    push_range(&mut out, secret, 0, secret.len());
    assert(secret@.subrange(0, secret.len() as int) =~= secret@);
    assert(out@ =~= head + secret@);
    out
}

/// Opens an envelope.
pub fn unwrap_envelope(bytes: &Vec<u8>) -> (r: Result<WrappedSecret, RecoveryError>)
    ensures
        wrapped_outcome_view(r) == parse_envelope(bytes@),
{
    let n = bytes.len();
    if n == 0 {
        return Err(RecoveryError::MalformedEnvelope);
    }
    if bytes[0] != 0 {
        return Err(RecoveryError::UnsupportedEnvelopeVersion);
    }
    if n < 2 {
        return Err(RecoveryError::MalformedEnvelope);
    }
    if bytes[1] == 0 {
        let mut secret: Vec<u8> = Vec::new();
        push_range(&mut secret, bytes, 2, n);
        assert(secret@ =~= bytes@.subrange(2, n as int));
        return Ok(
            WrappedSecret { version: EnvelopeVersion::InitialRelease, secret, mime_type: None },
        );
    }
    if bytes[1] != 1 || n < 6 {
        return Err(RecoveryError::MalformedEnvelope);
    }
    let m = read_be32(bytes, 2);
    if m as u64 > (n - 6) as u64 {
        return Err(RecoveryError::MalformedEnvelope);
    }
    let end: usize = 6 + m as usize;
    let mut encoded: Vec<u8> = Vec::new();
    push_range(&mut encoded, bytes, 6, end);
    assert(encoded@ =~= bytes@.subrange(6, 6 + m));
    match string_from_utf8(encoded) {
        None => Err(RecoveryError::MalformedEnvelope),
        Some(mime) => {
            let mut secret: Vec<u8> = Vec::new();
            push_range(&mut secret, bytes, end, n);
            assert(secret@ =~= bytes@.subrange(6 + m, n as int));
            Ok(
                WrappedSecret {
                    version: EnvelopeVersion::InitialRelease,
                    secret,
                    mime_type: Some(mime),
                },
            )
        },
    }
}

/// The envelope that a wrapped split puts the secret into.
pub open spec fn envelope_of(secret: Seq<u8>, mime_type: Option<Seq<char>>) -> Seq<u8> {
    envelope_bytes(
        WrappedView { version: EnvelopeVersion::InitialRelease, secret, mime_type },
    )
}

/// The view of a MIME type that may be absent.
pub open spec fn mime_view(mime_type: Option<String>) -> Option<Seq<char>> {
    match mime_type {
        Some(m) => Some(m@),
        None => None,
    }
}

/// The length of what stands before the secret in its envelope: two bytes,
/// and with a MIME type four more and the MIME type.
pub open spec fn header_len(mime_type: Option<Seq<char>>) -> nat {
    match mime_type {
        None => 2,
        Some(m) => 6 + encode_utf8(m).len(),
    }
}

/// The envelope is no longer than the longest secret that is split.
pub open spec fn fits(secret: Seq<u8>, mime_type: Option<Seq<char>>) -> bool {
    header_len(mime_type) + secret.len() <= MAX_SECRET_LEN
}

/// Splits a secret in its envelope, with the given rows of polynomial
/// coefficients, each as long as the envelope.
pub fn split_secret_with(
    threshold: u8,
    shares_count: u8,
    secret: &Vec<u8>,
    mime_type: Option<String>,
    rows: &Vec<Vec<u8>>,
    sign_shares: bool,
) -> (r: Result<Vec<String>, SplitError>)
    requires
        fits(secret@, mime_view(mime_type)),
    ensures
        r is Ok <==> valid_parameters(threshold, shares_count) && valid_rows(
            rows.deep_view(),
            threshold,
            envelope_of(secret@, mime_view(mime_type)).len(),
        ),
        r matches Err(e) ==> e == SplitError::InvalidParameters,
        r matches Ok(texts) ==> texts.len() == shares_count && written(
            texts.deep_view(),
            split_shares(
                envelope_of(secret@, mime_view(mime_type)),
                rows.deep_view(),
                threshold,
                shares_count,
                sign_shares,
            ),
        ),
{
    let envelope = wrap(secret, &mime_type);
    crate::sss::split_secret_with(threshold, shares_count, &envelope, rows, sign_shares)
}

/// Splits a secret in its envelope into `shares_count` shares of which any
/// `threshold` recover it, with coefficients from the system's random
/// source.
pub fn split_secret(
    threshold: u8,
    shares_count: u8,
    secret: &Vec<u8>,
    mime_type: Option<String>,
    sign_shares: bool,
) -> (r: Result<Vec<String>, SplitError>)
    requires
        fits(secret@, mime_view(mime_type)),
    ensures
        r == Err::<Vec<String>, SplitError>(SplitError::InvalidParameters) <==> !valid_parameters(
            threshold,
            shares_count,
        ),
        threshold == 1 && valid_parameters(threshold, shares_count) ==> r is Ok,
        r matches Ok(texts) ==> texts.len() == shares_count,
        r matches Ok(texts) ==> exists|rows: Seq<Seq<u8>>|
            valid_rows(rows, threshold, envelope_of(secret@, mime_view(mime_type)).len())
                && written(
                texts.deep_view(),
                #[trigger] split_shares(
                    envelope_of(secret@, mime_view(mime_type)),
                    rows,
                    threshold,
                    shares_count,
                    sign_shares,
                ),
            ),
{
    let envelope = wrap(secret, &mime_type);
    let r = crate::sss::split_secret(threshold, shares_count, &envelope, sign_shares);
    proof {
        match &r {
            Ok(texts) => {
                let rows = choose|rows: Seq<Seq<u8>>|
                    valid_rows(rows, threshold, envelope@.len()) && written(
                        texts.deep_view(),
                        #[trigger] split_shares(
                            envelope@,
                            rows,
                            threshold,
                            shares_count,
                            sign_shares,
                        ),
                    );
                assert(written(
                    texts.deep_view(),
                    split_shares(
                        envelope_of(secret@, mime_view(mime_type)),
                        rows,
                        threshold,
                        shares_count,
                        sign_shares,
                    ),
                ));
            },
            Err(_) => {},
        }
    }
    r
}

/// Recovers a wrapped secret from the texts of shares.
pub fn recover_secret(shares: &Vec<String>, verify_signatures: bool) -> (r: Result<
    WrappedSecret,
    RecoveryError,
>)
    ensures
        wrapped_outcome_view(r) == wrapped_recovery_outcome(
            shares.deep_view(),
            verify_signatures,
        ),
{
    match crate::sss::recover_secret(shares, verify_signatures) {
        Ok(bytes) => unwrap_envelope(&bytes),
        Err(e) => Err(e),
    }
}

} // verus!
