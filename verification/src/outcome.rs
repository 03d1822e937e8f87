//! The record of a lottery run, and how it is verified.

use crate::error::LotteryError;
use crate::hash::{blake2b_512, contents, lemma_joined_one, lemma_joined_two};
use crate::ranking::{
    lemma_ranked_is_ranked, lemma_ranked_len, lemma_ranked_of_ranked, lemma_ranked_permutes,
    pair_view, pairs_view, ranked, sort_by_digest, HashedEntry, Pair,
};
use vstd::seq_lib::to_multiset_contains;
use vstd::prelude::*;
use vstd::utf8::encode_utf8;

verus! {

/// The digest that ranks `entry` under `secret`: that of the entry's UTF-8
/// bytes followed by the secret.
pub open spec fn entry_digest(entry: Seq<char>, secret: Seq<u8>) -> Seq<u8> {
    blake2b_512(encode_utf8(entry) + secret)
}

/// The digest that commits to `secret`.
pub open spec fn commitment_of(secret: Seq<u8>) -> Seq<u8> {
    blake2b_512(secret)
}

/// Each entry with its digest under `secret`, in the order of the entries.
pub open spec fn hashed(entries: Seq<Seq<char>>, secret: Seq<u8>) -> Seq<Pair> {
    entries.map_values(|entry: Seq<char>| (entry_digest(entry, secret), entry))
}

/// The entries of a ranking, with the digests taken off.
pub open spec fn entries_of(ranking: Seq<Pair>) -> Seq<Seq<char>> {
    ranking.map_values(|pair: Pair| pair.1)
}

/// The characters of each of a list of strings.
pub open spec fn texts(entries: Seq<String>) -> Seq<Seq<char>> {
    entries.map_values(|entry: String| entry@)
}

/// What an outcome stands for.
pub struct OutcomeView {
    /// Digests with their entries, as ranked.
    pub ordered_entries: Seq<Pair>,
    /// The revealed secret.
    pub secret: Seq<u8>,
}

/// The outcome of the lottery over `entries` under `secret`.
pub open spec fn lottery(entries: Seq<Seq<char>>, secret: Seq<u8>) -> OutcomeView {
    OutcomeView { ordered_entries: ranked(hashed(entries, secret)), secret }
}

impl OutcomeView {
    /// Whether running the lottery again over this outcome's entries, under
    /// its secret, gives this outcome's ranking.
    pub open spec fn is_genuine(self) -> bool {
        self.ordered_entries == lottery(
            entries_of(self.ordered_entries),
            self.secret,
        ).ordered_entries
    }
}

/// The verifiable record of a lottery run: the entries in ascending order of
/// their digests, and the secret that the digests were made with.
#[derive(Debug)]
pub struct Outcome {
    /// Each entry behind its digest, in ascending order of the digests.
    pub ordered_entries: Vec<HashedEntry>,
    /// The revealed secret, as raw bytes.
    pub secret: Vec<u8>,
}

impl View for Outcome {
    type V = OutcomeView;

    open spec fn view(&self) -> OutcomeView {
        OutcomeView { ordered_entries: pairs_view(self.ordered_entries@), secret: self.secret@ }
    }
}

impl Outcome {
    /// Runs the lottery: hashes each entry together with the secret and ranks
    /// the entries by their digests.
    pub fn generate(entries: Vec<String>, secret: Vec<u8>) -> (outcome: Outcome)
        ensures
            outcome@ == lottery(texts(entries@), secret@),
            outcome@.is_genuine(),
    {
        let ghost all = texts(entries@);
        let mut pairs: Vec<HashedEntry> = Vec::new();
        for entry in it: entries
            invariant
                it.seq() == entries@,
                all == texts(entries@),
                pairs_view(pairs@) =~= hashed(all.take(it.index() as int), secret@),
        {
            let text: &str = entry.as_str();
            let parts: [&[u8]; 2] = [text.as_bytes(), secret.as_slice()];
            let digest = crate::hash::Hash::of(parts.as_slice());
            proof {
                assert(contents(parts@) =~= seq![encode_utf8(entry@), secret@]);
                lemma_joined_two(encode_utf8(entry@), secret@);
                assert(digest@ == entry_digest(entry@, secret@));
                assert(entry == entries@[it.index() as int]);
                assert(all.take(it.index() + 1) =~= all.take(it.index() as int).push(entry@));
                assert(hashed(all.take(it.index() + 1), secret@) =~= hashed(
                    all.take(it.index() as int),
                    secret@,
                ).push((digest@, entry@)));
            }
            let ghost before = pairs@;
            pairs.push((digest, entry));
            assert(pairs_view(pairs@) =~= pairs_view(before).push((digest@, entry@)));
        }
        sort_by_digest(&mut pairs);
        let outcome = Outcome { ordered_entries: pairs, secret };
        proof {
            assert(all.take(all.len() as int) =~= all);
            lemma_lottery_is_genuine(all, secret@);
        }
        outcome
    }

    /// Whether this outcome and `other` hold the same ranking, digest for
    /// digest and entry for entry, and the same secret.
    pub fn same_as(&self, other: &Outcome) -> (same: bool)
        ensures
            same == (self@ == other@),
    {
        let n = self.ordered_entries.len();
        let m = self.secret.len();
        if n != other.ordered_entries.len() || m != other.secret.len() {
            assert(self@.ordered_entries.len() != other@.ordered_entries.len() || self@.secret.len()
                != other@.secret.len());
            return false;
        }
        let mut i: usize = 0;
        while i < n
            invariant
                i <= n,
                n == self.ordered_entries@.len(),
                n == other.ordered_entries@.len(),
                forall|k: int|
                    0 <= k < i ==> pair_view(#[trigger] self.ordered_entries@[k]) == pair_view(
                        other.ordered_entries@[k],
                    ),
            decreases n - i,
        {
            let same_digest = self.ordered_entries[i].0.equals(&other.ordered_entries[i].0);
            let same_entry = self.ordered_entries[i].1 == other.ordered_entries[i].1;
            if !same_digest || !same_entry {
                assert(self@.ordered_entries[i as int] != other@.ordered_entries[i as int]);
                return false;
            }
            i += 1;
        }
        let mut j: usize = 0;
        while j < m
            invariant
                j <= m,
                m == self.secret@.len(),
                m == other.secret@.len(),
                forall|k: int| 0 <= k < j ==> self.secret@[k] == other.secret@[k],
            decreases m - j,
        {
            if self.secret[j] != other.secret[j] {
                return false;
            }
            j += 1;
        }
        assert(self@.ordered_entries =~= other@.ordered_entries);
        assert(self@.secret =~= other@.secret);
        true
    }

    /// Verifies that the ranking follows from the entries and the secret: the
    /// lottery is run again over the entries, with the digests taken off, and
    /// must give this very outcome.
    pub fn verify(&self) -> (verdict: Result<(), LotteryError>)
        ensures
            verdict == if self@.is_genuine() {
                Ok::<(), LotteryError>(())
            } else {
                Err(LotteryError::IntegrityViolation)
            },
    {
        let n = self.ordered_entries.len();
        let mut entries: Vec<String> = Vec::new();
        let mut i: usize = 0;
        while i < n
            invariant
                i <= n,
                n == self.ordered_entries@.len(),
                texts(entries@) =~= entries_of(self@.ordered_entries).take(i as int),
            decreases n - i,
        {
            let ghost before = entries@;
            entries.push(self.ordered_entries[i].1.clone());
            assert(texts(entries@) =~= texts(before).push(self.ordered_entries@[i as int].1@));
            i += 1;
        }
        assert(entries_of(self@.ordered_entries).take(n as int) =~= entries_of(
            self@.ordered_entries,
        ));
        let secret = self.secret.clone();
        assert(secret@ =~= self.secret@);
        let generated = Outcome::generate(entries, secret);
        if generated.same_as(self) {
            Ok(())
        } else {
            Err(LotteryError::IntegrityViolation)
        }
    }

    /// Verifies that the revealed secret is the one behind `commitment`.
    pub fn verify_commitment(&self, commitment: crate::hash::Hash) -> (verdict: Result<
        (),
        LotteryError,
    >)
        ensures
            verdict == if commitment@ == commitment_of(self@.secret) {
                Ok::<(), LotteryError>(())
            } else {
                Err(LotteryError::CommitmentMismatch)
            },
    {
        let expected = commit(self.secret.as_slice());
        if commitment.equals(&expected) {
            Ok(())
        } else {
            Err(LotteryError::CommitmentMismatch)
        }
    }
}

/// The commitment to `secret`: its digest, which can be published before the
/// entries are known.
pub fn commit(secret: &[u8]) -> (commitment: crate::hash::Hash)
    ensures
        commitment@ == commitment_of(secret@),
{
    let parts: [&[u8]; 1] = [secret];
    let commitment = crate::hash::Hash::of(parts.as_slice());
    proof {
        assert(contents(parts@) =~= seq![secret@]);
        lemma_joined_one(secret@);
    }
    commitment
}

/// The entries of a lottery's outcome, ranked again under the same secret, give
/// the same outcome.
pub proof fn lemma_lottery_is_genuine(entries: Seq<Seq<char>>, secret: Seq<u8>)
    ensures
        lottery(entries, secret).is_genuine(),
{
    let pairs = hashed(entries, secret);
    let ranking = ranked(pairs);
    let again = hashed(entries_of(ranking), secret);
    lemma_ranked_len(pairs);
    lemma_ranked_permutes(pairs);
    lemma_ranked_is_ranked(pairs);
    assert forall|i: int| 0 <= i < ranking.len() implies again[i] == ranking[i] by {
        to_multiset_contains(ranking, ranking[i]);
        to_multiset_contains(pairs, ranking[i]);
        assert(ranking.contains(ranking[i]));
        let j = choose|j: int| 0 <= j < pairs.len() && pairs[j] == ranking[i];
        assert(pairs[j] == (entry_digest(entries[j], secret), entries[j]));
    }
    assert(again =~= ranking);
    lemma_ranked_of_ranked(ranking);
}

} // verus!
