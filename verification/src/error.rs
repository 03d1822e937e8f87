//! The ways in which a lottery operation can fail.

use vstd::prelude::*;

verus! {

/// Why an operation of the lottery was refused.
#[derive(Clone, Copy, Debug, PartialEq, Eq, Structural)]
pub enum LotteryError {
    /// A digest was not written as 128 hexadecimal digits.
    MalformedHash,
    /// A secret was not written as pairs of hexadecimal digits.
    MalformedSecret,
    /// The ranking does not follow from the entries and the secret.
    IntegrityViolation,
    /// The revealed secret is not the one that was committed to.
    CommitmentMismatch,
    /// The system's random source could not deliver a secret.
    Entropy,
}

impl LotteryError {
    /// A short description of the failure, for diagnostics.
    pub fn message(&self) -> (text: &'static str)
        ensures
            text@ == match *self {
                LotteryError::MalformedHash => "malformed hash"@,
                LotteryError::MalformedSecret => "malformed secret"@,
                LotteryError::IntegrityViolation => "integrity violation"@,
                LotteryError::CommitmentMismatch => "commitment mismatch"@,
                LotteryError::Entropy => "no entropy available"@,
            },
    {
        match self {
            LotteryError::MalformedHash => "malformed hash",
            LotteryError::MalformedSecret => "malformed secret",
            LotteryError::IntegrityViolation => "integrity violation",
            LotteryError::CommitmentMismatch => "commitment mismatch",
            LotteryError::Entropy => "no entropy available",
        }
    }

    /// Whether the failure says that the lottery itself is invalid, as opposed
    /// to an input that could not be read.
    pub fn is_verdict(&self) -> (verdict: bool)
        ensures
            verdict == (*self == LotteryError::IntegrityViolation || *self
                == LotteryError::CommitmentMismatch),
    {
        match self {
            LotteryError::IntegrityViolation => true,
            LotteryError::CommitmentMismatch => true,
            _ => false,
        }
    }
}

} // verus!
