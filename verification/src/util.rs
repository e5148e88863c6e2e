//! What the host of the library needs at its boundary: numbers narrowed to
//! a byte, and the parts of an error by which a program can act on it.

use vstd::prelude::*;
use vstd::string::*;
use crate::error::{RecoveryError, RecoveryFailure, SignatureFault};
use crate::share::copy_bytes;

verus! {

/// The number as a byte; `None` where it is negative or above 255.
pub fn to_u8(n: i64) -> (r: Option<u8>)
    ensures
        r == (if 0 <= n <= 255 {
            Some(n as u8)
        } else {
            None
        }),
{
    if n < 0 || n > 255 {
        None
    } else {
        Some(n as u8)
    }
}

/// The id of the share that an error is about, where it is about one.
pub open spec fn share_num_of(e: RecoveryFailure) -> Option<u8> {
    match e {
        RecoveryFailure::DuplicateShareId(id) => Some(id),
        RecoveryFailure::DuplicateShareData(id) => Some(id),
        RecoveryFailure::MissingSignature(id) => Some(id),
        RecoveryFailure::InvalidSignature(id, _) => Some(id),
        _ => None,
    }
}

/// The place in the input of the share that an error is about, where it
/// is about one that could not be read.
pub open spec fn share_index_of(e: RecoveryFailure) -> Option<usize> {
    match e {
        RecoveryFailure::ShareParsingError(i) => Some(i),
        _ => None,
    }
}

/// The ids of the shares of each group, where an error holds groups.
pub open spec fn share_groups_of(e: RecoveryFailure) -> Option<Seq<Seq<u8>>> {
    match e {
        RecoveryFailure::IncompatibleSets(groups) => Some(
            Seq::new(groups.len(), |g: int| groups[g].share_ids),
        ),
        _ => None,
    }
}

/// What an error says in words.
pub open spec fn message_of(e: RecoveryFailure) -> Seq<char> {
    match e {
        RecoveryFailure::ShareParsingError(_) => "a share could not be parsed"@,
        RecoveryFailure::IncompatibleSets(_) => "the shares come from different splits"@,
        RecoveryFailure::DuplicateShareId(_) => "a share was given twice"@,
        RecoveryFailure::DuplicateShareData(_) => "two different shares have the same id"@,
        RecoveryFailure::MissingSignature(_) => "a share is not signed"@,
        RecoveryFailure::InvalidSignature(_, SignatureFault::Malformed) => {
            "the signature of a share is malformed"@
        },
        RecoveryFailure::InvalidSignature(_, SignatureFault::WrongDigest) => {
            "the signature of a share does not match its data"@
        },
        RecoveryFailure::InvalidSignature(_, SignatureFault::ForeignSet) => {
            "the signature of a share is not that of the other shares"@
        },
        RecoveryFailure::InsufficientShares { .. } => "there are not enough shares"@,
        RecoveryFailure::UnsupportedEnvelopeVersion => {
            "the version of the envelope is not supported"@
        },
        RecoveryFailure::MalformedEnvelope => "the recovered bytes are no envelope"@,
    }
}

impl RecoveryError {
    /// The id of the share that the error is about, where it is about one.
    pub fn share_num(&self) -> (r: Option<u8>)
        ensures
            r == share_num_of(self@),
    {
        match self {
            RecoveryError::DuplicateShareId(id) => Some(*id),
            RecoveryError::DuplicateShareData(id) => Some(*id),
            RecoveryError::MissingSignature(id) => Some(*id),
            RecoveryError::InvalidSignature(id, _) => Some(*id),
            _ => None,
        }
    }

    /// The place in the input of the share that could not be read, where
    /// the error is about one.
    pub fn share_index(&self) -> (r: Option<usize>)
        ensures
            r == share_index_of(self@),
    {
        match self {
            RecoveryError::ShareParsingError(i) => Some(*i),
            _ => None,
        }
    }

    /// The ids of the shares of each group, where the error holds groups.
    pub fn share_groups(&self) -> (r: Option<Vec<Vec<u8>>>)
        ensures
            match r {
                Some(groups) => Some(groups.deep_view()),
                None => None,
            } == share_groups_of(self@),
    {
        match self {
            RecoveryError::IncompatibleSets(groups) => {
                let n = groups.len();
                let mut out: Vec<Vec<u8>> = Vec::with_capacity(n);
                let mut g: usize = 0;
                while g < n
                    invariant
                        g <= n,
                        n == groups.len(),
                        out.len() == g,
                        forall|k: int| 0 <= k < g ==> (#[trigger] out[k])@ == groups[k].share_ids@,
                    decreases n - g,
                {
                    out.push(copy_bytes(&groups[g].share_ids));
                    g = g + 1;
                }
                assert(out.deep_view() =~= share_groups_of(self@).unwrap()) by {
                    assert forall|k: int| 0 <= k < n implies out.deep_view()[k]
                        == share_groups_of(self@).unwrap()[k] by {
                        assert(groups.deep_view()[k] == groups[k]@);
                    }
                }
                Some(out)
            },
            _ => None,
        }
    }

    /// What the error says in words.
    pub fn message(&self) -> (r: String)
        ensures
            r@ == message_of(self@),
    {
        let text = match self {
            RecoveryError::ShareParsingError(_) => "a share could not be parsed",
            RecoveryError::IncompatibleSets(_) => "the shares come from different splits",
            RecoveryError::DuplicateShareId(_) => "a share was given twice",
            RecoveryError::DuplicateShareData(_) => "two different shares have the same id",
            RecoveryError::MissingSignature(_) => "a share is not signed",
            RecoveryError::InvalidSignature(_, SignatureFault::Malformed) => {
                "the signature of a share is malformed"
            },
            RecoveryError::InvalidSignature(_, SignatureFault::WrongDigest) => {
                "the signature of a share does not match its data"
            },
            RecoveryError::InvalidSignature(_, SignatureFault::ForeignSet) => {
                "the signature of a share is not that of the other shares"
            },
            RecoveryError::InsufficientShares { .. } => "there are not enough shares",
            RecoveryError::UnsupportedEnvelopeVersion => {
                "the version of the envelope is not supported"
            },
            RecoveryError::MalformedEnvelope => "the recovered bytes are no envelope",
        };
        String::from_str(text)
    }
}

} // verus!
