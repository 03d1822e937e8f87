//! Fixed-size digests over concatenations of byte sequences.

use crate::error::LotteryError;
use crate::hex_text::{
    ascii_bytes, hex_decode, hex_decoding, hex_encode, hex_encoding, is_hex_text,
    lemma_hex_encoding_is_hex, lemma_hex_text_bytes,
};
use vstd::prelude::*;
use vstd::string::is_ascii_spec_bytes;

verus! {

/// The BLAKE2b digest with 512 bits of output, unkeyed, of a message.
pub uninterp spec fn blake2b_512(message: Seq<u8>) -> Seq<u8>;

/// The parts of a message, one after the other, with nothing in between.
pub open spec fn joined(parts: Seq<Seq<u8>>) -> Seq<u8>
    decreases parts.len(),
{
    if parts.len() == 0 {
        Seq::empty()
    } else {
        joined(parts.drop_last()) + parts.last()
    }
}

/// A message in one part is that part.
pub proof fn lemma_joined_one(a: Seq<u8>)
    ensures
        joined(seq![a]) == a,
{
    reveal_with_fuel(joined, 2);
    assert(seq![a].drop_last() =~= Seq::<Seq<u8>>::empty());
    assert(joined(seq![a]) =~= a);
}

/// A message in two parts is the first part followed by the second, so that
/// hashing the two parts is hashing their concatenation.
pub proof fn lemma_joined_two(a: Seq<u8>, b: Seq<u8>)
    ensures
        joined(seq![a, b]) == a + b,
        joined(seq![a, b]) == joined(seq![a + b]),
{
    lemma_joined_one(a);
    lemma_joined_one(a + b);
    assert(seq![a, b].drop_last() =~= seq![a]);
}

/// Cutting a message into parts at other places does not change it: parts
/// that are joined first and then followed by more parts give the same message.
pub proof fn lemma_joined_concat(front: Seq<Seq<u8>>, back: Seq<Seq<u8>>)
    ensures
        joined(front + back) == joined(front) + joined(back),
    decreases back.len(),
{
    if back.len() == 0 {
        assert(front + back =~= front);
        assert(joined(front) + joined(back) =~= joined(front));
    } else {
        lemma_joined_concat(front, back.drop_last());
        assert((front + back).drop_last() =~= front + back.drop_last());
        assert(joined(front + back) =~= joined(front) + joined(back));
    }
}

/// The contents of each of a list of byte slices.
pub open spec fn contents(parts: Seq<&[u8]>) -> Seq<Seq<u8>> {
    parts.map_values(|part: &[u8]| part@)
}

/// Whether `a` comes no later than `b` when byte sequences are ordered
/// lexicographically, byte by byte.
pub open spec fn digest_le(a: Seq<u8>, b: Seq<u8>) -> bool
    decreases a.len(),
{
    if a.len() == 0 {
        true
    } else if b.len() == 0 {
        false
    } else if a[0] != b[0] {
        a[0] < b[0]
    } else {
        digest_le(a.drop_first(), b.drop_first())
    }
}

/// Every byte sequence comes no later than itself.
pub proof fn lemma_digest_le_reflexive(a: Seq<u8>)
    ensures
        digest_le(a, a),
    decreases a.len(),
{
    if a.len() > 0 {
        lemma_digest_le_reflexive(a.drop_first());
    }
}

/// Of two byte sequences, one comes no later than the other.
pub proof fn lemma_digest_le_total(a: Seq<u8>, b: Seq<u8>)
    ensures
        digest_le(a, b) || digest_le(b, a),
    decreases a.len(),
{
    if a.len() > 0 && b.len() > 0 && a[0] == b[0] {
        lemma_digest_le_total(a.drop_first(), b.drop_first());
    }
}

/// The order carries over a sequence in the middle.
pub proof fn lemma_digest_le_transitive(a: Seq<u8>, b: Seq<u8>, c: Seq<u8>)
    requires
        digest_le(a, b),
        digest_le(b, c),
    ensures
        digest_le(a, c),
    decreases a.len(),
{
    if a.len() > 0 && a[0] == b[0] && b[0] == c[0] {
        lemma_digest_le_transitive(a.drop_first(), b.drop_first(), c.drop_first());
    }
}

/// Two byte sequences of which each comes no later than the other are equal.
pub proof fn lemma_digest_le_antisymmetric(a: Seq<u8>, b: Seq<u8>)
    requires
        digest_le(a, b),
        digest_le(b, a),
    ensures
        a == b,
    decreases a.len(),
{
    if a.len() > 0 {
        lemma_digest_le_antisymmetric(a.drop_first(), b.drop_first());
        assert(a =~= seq![a[0]] + a.drop_first());
        assert(b =~= seq![b[0]] + b.drop_first());
    } else {
        assert(a =~= b);
    }
}

/// Whether `text` is the canonical length for a digest, 128 characters, all of
/// them hexadecimal digits.
pub open spec fn is_digest_text(text: Seq<char>) -> bool {
    text.len() == 128 && is_hex_text(text)
}

/// Calls `blake2::Blake2b::digest` (the `Digest` trait's one-shot function) on
/// `message`. Trusted: the 64 bytes that come back are taken to be the unkeyed
/// BLAKE2b-512 digest of the message, which is what `blake2b_512` names.
#[verifier::external_body]
fn blake2b_digest(message: &[u8]) -> (out: [u8; 64])
    ensures
        out@ == blake2b_512(message@),
{
    let digest = <blake2::Blake2b as blake2::Digest>::digest(message);
    let mut out: [u8; 64] = [0u8; 64];
    out.copy_from_slice(&digest);
    out
}

/// A 64-byte digest.
#[derive(Clone, Copy, Debug, Ord)]
pub struct Hash {
    bytes: [u8; 64],
}

impl View for Hash {
    type V = Seq<u8>;

    open spec fn view(&self) -> Seq<u8> {
        self.as_seq()
    }
}

impl Hash {
    /// The digest's bytes, in order.
    pub closed spec fn as_seq(&self) -> Seq<u8> {
        self.bytes@
    }

    /// Every digest has exactly 64 bytes.
    pub broadcast proof fn lemma_len(&self)
        ensures
            #[trigger] self@.len() == 64,
    {
    }

    /// Two digests with the same bytes are the same digest.
    pub proof fn lemma_ext_equal(a: Hash, b: Hash)
        requires
            a@ == b@,
        ensures
            a == b,
    {
        assert(a.bytes@ =~= b.bytes@);
        assert(a.bytes == b.bytes);
    }

    /// Wraps 64 bytes as a digest.
    pub fn from_bytes(bytes: [u8; 64]) -> (h: Hash)
        ensures
            h@ == bytes@,
    {
        Hash { bytes }
    }

    /// The digest's 64 bytes.
    pub fn as_bytes(&self) -> (bytes: &[u8; 64])
        ensures
            bytes@ == self@,
    {
        &self.bytes
    }

    /// Reads a digest from its text form: 128 hexadecimal digits, of either
    /// case. Any other text is refused as malformed.
    pub fn parse(s: &str) -> (parsed: Result<Hash, LotteryError>)
        ensures
            parsed is Ok <==> is_digest_text(s@),
            parsed matches Ok(h) ==> h@ == hex_decoding(ascii_bytes(s@)),
            parsed matches Err(e) ==> e == LotteryError::MalformedHash,
    {
        proof {
            lemma_hex_text_bytes(s@);
        }
        if !s.is_ascii() {
            return Err(LotteryError::MalformedHash);
        }
        let text = s.as_bytes();
        proof {
            broadcast use is_ascii_spec_bytes;

            assert(text@ =~= ascii_bytes(s@));
        }
        match hex_decode(text) {
            Ok(data) => {
                if data.len() != 64 {
                    return Err(LotteryError::MalformedHash);
                }
                let mut bytes: [u8; 64] = [0u8; 64];
                let mut i: usize = 0;
                while i < 64
                    invariant
                        i <= 64,
                        data@.len() == 64,
                        forall|j: int| 0 <= j < i ==> bytes@[j] == data@[j],
                    decreases 64 - i,
                {
                    bytes[i] = data[i];
                    i += 1;
                }
                assert(bytes@ =~= data@);
                Ok(Hash { bytes })
            },
            Err(_) => Err(LotteryError::MalformedHash),
        }
    }

    /// The digest's text form: 128 lowercase hexadecimal digits.
    pub fn to_string(&self) -> (text: String)
        ensures
            text@ == hex_encoding(self@),
            is_digest_text(text@),
    {
        proof {
            lemma_hex_encoding_is_hex(self@);
        }
        hex_encode(self.bytes.as_slice())
    }

    /// Whether this digest has the same bytes as `other`.
    pub fn equals(&self, other: &Hash) -> (same: bool)
        ensures
            same == (self@ == other@),
            same == (*self == *other),
    {
        let mut i: usize = 0;
        while i < 64
            invariant
                i <= 64,
                forall|j: int| 0 <= j < i ==> self.bytes@[j] == other.bytes@[j],
            decreases 64 - i,
        {
            if self.bytes[i] != other.bytes[i] {
                return false;
            }
            i += 1;
        }
        proof {
            assert(self@ =~= other@);
            Self::lemma_ext_equal(*self, *other);
        }
        true
    }

    /// Whether this digest comes no later than `other` in the byte-wise
    /// lexicographic order.
    pub fn le(&self, other: &Hash) -> (no_later: bool)
        ensures
            no_later == digest_le(self@, other@),
    {
        let mut i: usize = 0;
        assert(self@.skip(0) =~= self@ && other@.skip(0) =~= other@);
        while i < 64
            invariant
                i <= 64,
                digest_le(self@, other@) == digest_le(self@.skip(i as int), other@.skip(i as int)),
            decreases 64 - i,
        {
            let a = self.bytes[i];
            let b = other.bytes[i];
            assert(self@.skip(i as int)[0] == a && other@.skip(i as int)[0] == b);
            if a != b {
                return a < b;
            }
            assert(self@.skip(i as int).drop_first() =~= self@.skip(i + 1));
            assert(other@.skip(i as int).drop_first() =~= other@.skip(i + 1));
            i += 1;
        }
        true
    }

    /// Hashes the concatenation of `sequences`, in order, without separators or
    /// length prefixes.
    pub fn of(sequences: &[&[u8]]) -> (h: Hash)
        ensures
            h@ == blake2b_512(joined(contents(sequences@))),
    {
        let mut message: Vec<u8> = Vec::new();
        let mut i: usize = 0;
        while i < sequences.len()
            invariant
                i <= sequences.len(),
                message@ == joined(contents(sequences@).take(i as int)),
            decreases sequences.len() - i,
        {
            let part: &[u8] = sequences[i];
            let mut j: usize = 0;
            while j < part.len()
                invariant
                    j <= part.len(),
                    i < sequences.len(),
                    part == sequences[i as int],
                    message@ == joined(contents(sequences@).take(i as int)) + part@.take(j as int),
                decreases part.len() - j,
            {
                message.push(part[j]);
                assert(part@.take(j + 1) =~= part@.take(j as int).push(part@[j as int]));
                j += 1;
            }
            assert(part@.take(part.len() as int) =~= part@);
            assert(contents(sequences@).take(i + 1).drop_last() =~= contents(sequences@).take(
                i as int,
            ));
            i += 1;
        }
        assert(contents(sequences@).take(sequences.len() as int) =~= contents(sequences@));
        Hash { bytes: blake2b_digest(message.as_slice()) }
    }
}

} // verus!
