//! What a split or a recovery reports when it fails.

use vstd::prelude::*;

verus! {

/// Why a split produced no shares.
#[derive(Debug, Clone, Copy, PartialEq, Eq, Structural)]
pub enum SplitError {
    /// The threshold is zero or above the number of shares.
    InvalidParameters,
    /// The system's random source gave no bytes.
    EntropyUnavailable,
}

/// What is wrong with a signature that is present.
#[derive(Debug, Clone, Copy, PartialEq, Eq, Structural)]
pub enum SignatureFault {
    /// It does not hold one digest for each share of the split.
    Malformed,
    /// Its digest for this share is not the digest of the share.
    WrongDigest,
    /// It differs from the signature of the first share given.
    ForeignSet,
}

/// The shares of one split among the shares given: its parameters, and the
/// ids of its shares in the order in which they were given.
#[derive(Debug, Clone, PartialEq, Eq)]
pub struct ShareGroup {
    pub threshold: u8,
    pub shares_count: u8,
    pub share_ids: Vec<u8>,
}

/// The mathematical value of a group.
pub struct GroupView {
    pub threshold: u8,
    pub shares_count: u8,
    pub share_ids: Seq<u8>,
}

impl View for ShareGroup {
    type V = GroupView;

    open spec fn view(&self) -> GroupView {
        GroupView {
            threshold: self.threshold,
            shares_count: self.shares_count,
            share_ids: self.share_ids@,
        }
    }
}

impl DeepView for ShareGroup {
    type V = GroupView;

    open spec fn deep_view(&self) -> GroupView {
        self.view()
    }
}

/// Why a recovery returned no secret.
#[derive(Debug, Clone, PartialEq, Eq)]
pub enum RecoveryError {
    /// The share at this place in the input is malformed.
    ShareParsingError(usize),
    /// The shares come from splits with different parameters.
    IncompatibleSets(Vec<ShareGroup>),
    /// Two shares have this id, and the same data.
    DuplicateShareId(u8),
    /// Two shares have this id, and different data.
    DuplicateShareData(u8),
    /// Verification was asked for and the share with this id is unsigned.
    MissingSignature(u8),
    /// Verification was asked for and the signature of the share with this
    /// id does not hold.
    InvalidSignature(u8, SignatureFault),
    /// There are `have` shares where `need` are required.
    InsufficientShares { have: u8, need: u8 },
    /// The recovered envelope has a version tag that is not known.
    UnsupportedEnvelopeVersion,
    /// The recovered bytes are no envelope.
    MalformedEnvelope,
}

/// The mathematical value of a recovery error.
pub enum RecoveryFailure {
    ShareParsingError(usize),
    IncompatibleSets(Seq<GroupView>),
    DuplicateShareId(u8),
    DuplicateShareData(u8),
    MissingSignature(u8),
    InvalidSignature(u8, SignatureFault),
    InsufficientShares { have: u8, need: u8 },
    UnsupportedEnvelopeVersion,
    MalformedEnvelope,
}

impl View for RecoveryError {
    type V = RecoveryFailure;

    open spec fn view(&self) -> RecoveryFailure {
        match self {
            RecoveryError::ShareParsingError(i) => RecoveryFailure::ShareParsingError(*i),
            RecoveryError::IncompatibleSets(g) => RecoveryFailure::IncompatibleSets(
                g.deep_view(),
            ),
            RecoveryError::DuplicateShareId(id) => RecoveryFailure::DuplicateShareId(*id),
            RecoveryError::DuplicateShareData(id) => RecoveryFailure::DuplicateShareData(*id),
            RecoveryError::MissingSignature(id) => RecoveryFailure::MissingSignature(*id),
            RecoveryError::InvalidSignature(id, fault) => RecoveryFailure::InvalidSignature(
                *id,
                *fault,
            ),
            RecoveryError::InsufficientShares { have, need } => {
                RecoveryFailure::InsufficientShares { have: *have, need: *need }
            },
            RecoveryError::UnsupportedEnvelopeVersion => {
                RecoveryFailure::UnsupportedEnvelopeVersion
            },
            RecoveryError::MalformedEnvelope => RecoveryFailure::MalformedEnvelope,
        }
    }
}

} // verus!
