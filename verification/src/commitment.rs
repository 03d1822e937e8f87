//! Drawing a secret and committing to it.

use crate::error::LotteryError;
use crate::hex_text::{
    hex_decode, hex_decoding, hex_encode, hex_encoding, is_hex_bytes, is_hex_text,
    lemma_hex_encoding_is_hex,
};
use crate::outcome::{commit, commitment_of};
use vstd::prelude::*;

verus! {

/// Number of bytes in a freshly drawn secret.
pub const SECRET_LEN: usize = 64;

/// The error of rand's generators.
#[verifier::external_type_specification]
#[verifier::external_body]
pub struct ExRandError(rand::Error);

/// Calls `try_fill_bytes` of `rand::rngs::OsRng` on a buffer of 64 bytes and
/// hands the buffer out where the call succeeds. Trusted: nothing is claimed
/// of the bytes, which are the operating system's to choose.
#[verifier::external_body]
fn os_random_bytes() -> (drawn: Result<[u8; 64], rand::Error>) {
    let mut buffer: [u8; 64] = [0u8; 64];
    match rand::RngCore::try_fill_bytes(&mut rand::rngs::OsRng, &mut buffer) {
        Ok(()) => Ok(buffer),
        Err(failure) => Err(failure),
    }
}

/// A secret together with the commitment to it. The secret is not to be shown
/// to anyone before the entries are final.
pub struct Sealed {
    /// The secret, to be kept until the entries are final.
    pub secret: Vec<u8>,
    /// The digest of the secret, safe to publish at once.
    pub commitment: crate::hash::Hash,
}

impl Sealed {
    /// Whether the commitment is the one to the secret.
    pub open spec fn is_bound(&self) -> bool {
        self.commitment@ == commitment_of(self.secret@)
    }

    /// Commits to `secret`.
    pub fn from_secret(secret: Vec<u8>) -> (sealed: Sealed)
        ensures
            sealed.secret@ == secret@,
            sealed.is_bound(),
    {
        let commitment = commit(secret.as_slice());
        Sealed { secret, commitment }
    }

    /// The secret as it is stored: lowercase hexadecimal digits, two per byte.
    pub fn secret_text(&self) -> (text: String)
        ensures
            text@ == hex_encoding(self.secret@),
            is_hex_text(text@),
    {
        encode_secret(self.secret.as_slice())
    }

    /// The commitment as it is published: 128 lowercase hexadecimal digits.
    pub fn commitment_text(&self) -> (text: String)
        ensures
            text@ == hex_encoding(self.commitment@),
    {
        self.commitment.to_string()
    }
}

/// Draws a secret of 64 bytes from the operating system's random source and
/// commits to it. Fails only where the random source does.
pub fn generate() -> (drawn: Result<Sealed, LotteryError>)
    ensures
        drawn matches Ok(sealed) ==> sealed.secret@.len() == SECRET_LEN && sealed.is_bound(),
        drawn matches Err(e) ==> e == LotteryError::Entropy,
{
    match os_random_bytes() {
        Ok(bytes) => Ok(seal(&bytes)),
        Err(_) => Err(LotteryError::Entropy),
    }
}

/// Commits to the 64 bytes that a random source has delivered.
pub fn seal(bytes: &[u8; 64]) -> (sealed: Sealed)
    ensures
        sealed.secret@ == bytes@,
        sealed.is_bound(),
{
    let mut secret: Vec<u8> = Vec::new();
    let mut i: usize = 0;
    while i < 64
        invariant
            i <= 64,
            secret@ == bytes@.take(i as int),
        decreases 64 - i,
    {
        secret.push(bytes[i]);
        assert(bytes@.take(i + 1) =~= bytes@.take(i as int).push(bytes@[i as int]));
        i += 1;
    }
    assert(bytes@.take(64) =~= bytes@);
    Sealed::from_secret(secret)
}

/// Writes a secret as text: lowercase hexadecimal digits, two per byte.
pub fn encode_secret(secret: &[u8]) -> (text: String)
    ensures
        text@ == hex_encoding(secret@),
        is_hex_text(text@),
{
    proof {
        lemma_hex_encoding_is_hex(secret@);
    }
    hex_encode(secret)
}

/// Reads a secret from its text: an even number of hexadecimal digits, of
/// either case, and nothing else.
pub fn decode_secret(text: &[u8]) -> (decoded: Result<Vec<u8>, LotteryError>)
    ensures
        decoded is Ok <==> is_hex_bytes(text@),
        decoded matches Ok(secret) ==> secret@ == hex_decoding(text@),
        decoded matches Err(e) ==> e == LotteryError::MalformedSecret,
{
    match hex_decode(text) {
        Ok(secret) => Ok(secret),
        Err(_) => Err(LotteryError::MalformedSecret),
    }
}

} // verus!
