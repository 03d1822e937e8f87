//! The lottery's two public steps after the commitment: the draw and the audit.

use crate::commitment::decode_secret;
use crate::error::LotteryError;
use crate::hash::is_digest_text;
use crate::hex_text::{ascii_bytes, hex_decoding, is_hex_bytes};
use crate::outcome::{commitment_of, lottery, texts, Outcome, OutcomeView};
use vstd::prelude::*;

verus! {

/// The characters of a commitment, where one was given.
pub open spec fn commitment_text(commitment: Option<&str>) -> Option<Seq<char>> {
    match commitment {
        Some(text) => Some(text@),
        None => None,
    }
}

/// What an audit finds. The ranking is looked at first. A commitment, where one
/// is given, must then be well formed and be the digest of the secret.
pub open spec fn audit_verdict(outcome: OutcomeView, commitment: Option<Seq<char>>) -> Result<
    (),
    LotteryError,
> {
    if !outcome.is_genuine() {
        Err(LotteryError::IntegrityViolation)
    } else {
        match commitment {
            None => Ok(()),
            Some(text) => if !is_digest_text(text) {
                Err(LotteryError::MalformedHash)
            } else if hex_decoding(ascii_bytes(text)) != commitment_of(outcome.secret) {
                Err(LotteryError::CommitmentMismatch)
            } else {
                Ok(())
            },
        }
    }
}

/// Runs the lottery over `entries` with the secret that `secret_text` writes in
/// hexadecimal digits.
pub fn run_lottery(secret_text: &[u8], entries: Vec<String>) -> (drawn: Result<
    Outcome,
    LotteryError,
>)
    ensures
        drawn is Ok <==> is_hex_bytes(secret_text@),
        drawn matches Ok(outcome) ==> outcome@ == lottery(
            texts(entries@),
            hex_decoding(secret_text@),
        ) && outcome@.is_genuine(),
        drawn matches Err(e) ==> e == LotteryError::MalformedSecret,
{
    match decode_secret(secret_text) {
        Ok(secret) => Ok(Outcome::generate(entries, secret)),
        Err(e) => Err(e),
    }
}

/// Audits an outcome: always the ranking, and the secret against `commitment`
/// where one is given.
pub fn audit(outcome: &Outcome, commitment: Option<&str>) -> (verdict: Result<(), LotteryError>)
    ensures
        verdict == audit_verdict(outcome@, commitment_text(commitment)),
{
    if let Err(e) = outcome.verify() {
        return Err(e);
    }
    match commitment {
        None => Ok(()),
        Some(text) => match crate::hash::Hash::parse(text) {
            Ok(hash) => outcome.verify_commitment(hash),
            Err(e) => Err(e),
        },
    }
}

} // verus!
