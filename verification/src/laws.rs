//! What holds of every lottery: the laws that the operations obey together.

use crate::hash::is_digest_text;
use crate::hex_text::{
    ascii_bytes, hex_decoding, hex_encoding, is_hex_bytes, lemma_hex_encoding_is_hex,
    lemma_hex_round_trip,
};
use crate::outcome::{entries_of, entry_digest, hashed, lottery, OutcomeView};
use crate::ranking::{
    has_digest, is_ranked, keeps_order_of, lemma_ranked_is_ranked, lemma_ranked_len,
    lemma_ranked_of_ranked, lemma_ranked_permutes, lemma_ranked_stable, lemma_ranked_unique,
    ranked, Pair,
};
use vstd::prelude::*;
use vstd::seq_lib::{
    to_multiset_build, to_multiset_contains, to_multiset_insert, to_multiset_len,
    to_multiset_remove,
};

verus! {

/// Whether every digest of `ranking` is the digest of its entry under `secret`.
pub open spec fn is_well_hashed(ranking: Seq<Pair>, secret: Seq<u8>) -> bool {
    forall|i: int|
        0 <= i < ranking.len() ==> (#[trigger] ranking[i]).0 == entry_digest(ranking[i].1, secret)
}

/// The outcome in which the digest at `index` has been replaced.
pub open spec fn with_digest(outcome: OutcomeView, index: int, digest: Seq<u8>) -> OutcomeView {
    OutcomeView {
        ordered_entries: outcome.ordered_entries.update(
            index,
            (digest, outcome.ordered_entries[index].1),
        ),
        secret: outcome.secret,
    }
}

/// The outcome in which the entry at `index` has been replaced.
pub open spec fn with_entry(outcome: OutcomeView, index: int, entry: Seq<char>) -> OutcomeView {
    OutcomeView {
        ordered_entries: outcome.ordered_entries.update(
            index,
            (outcome.ordered_entries[index].0, entry),
        ),
        secret: outcome.secret,
    }
}

/// The outcome in which the secret has been replaced.
pub open spec fn with_secret(outcome: OutcomeView, secret: Seq<u8>) -> OutcomeView {
    OutcomeView { ordered_entries: outcome.ordered_entries, secret }
}

/// Determinism: the lottery over the same entries under the same secret gives
/// the same outcome, whenever and wherever it is run.
pub proof fn lemma_lottery_repeatable(
    first: OutcomeView,
    second: OutcomeView,
    entries: Seq<Seq<char>>,
    secret: Seq<u8>,
)
    requires
        first == lottery(entries, secret),
        second == lottery(entries, secret),
    ensures
        first == second,
{
}

/// Two sequences that hold the same items equally often still do so after the
/// same function has been applied to every item.
pub proof fn lemma_map_values_permutation<A, B>(a: Seq<A>, b: Seq<A>, f: spec_fn(A) -> B)
    requires
        a.to_multiset() == b.to_multiset(),
    ensures
        a.map_values(f).to_multiset() == b.map_values(f).to_multiset(),
    decreases a.len(),
{
    to_multiset_len(a);
    to_multiset_len(b);
    if a.len() == 0 {
        assert(a.map_values(f) =~= b.map_values(f));
    } else {
        let x = a.last();
        to_multiset_contains(a, x);
        to_multiset_contains(b, x);
        assert(a.contains(x));
        let j = choose|j: int| 0 <= j < b.len() && b[j] == x;
        let a_rest = a.drop_last();
        let b_rest = b.remove(j);
        to_multiset_remove(a, a.len() - 1);
        to_multiset_remove(b, j);
        assert(a.remove(a.len() - 1) =~= a_rest);
        lemma_map_values_permutation(a_rest, b_rest, f);
        to_multiset_insert(a_rest.map_values(f), a_rest.len() as int, f(x));
        to_multiset_insert(b_rest.map_values(f), j, f(x));
        assert(a_rest.map_values(f).insert(a_rest.len() as int, f(x)) =~= a.map_values(f));
        assert(b_rest.map_values(f).insert(j, f(x)) =~= b.map_values(f));
    }
}

/// Permutation invariance: which digests come with which entries, and how
/// often, does not depend on the order in which the entries were handed in.
pub proof fn lemma_lottery_permutation(
    entries: Seq<Seq<char>>,
    shuffled: Seq<Seq<char>>,
    secret: Seq<u8>,
)
    requires
        entries.to_multiset() == shuffled.to_multiset(),
    ensures
        lottery(entries, secret).ordered_entries.to_multiset() == lottery(
            shuffled,
            secret,
        ).ordered_entries.to_multiset(),
        lottery(entries, secret).secret == lottery(shuffled, secret).secret,
{
    lemma_map_values_permutation(
        entries,
        shuffled,
        |entry: Seq<char>| (entry_digest(entry, secret), entry),
    );
    lemma_ranked_permutes(hashed(entries, secret));
    lemma_ranked_permutes(hashed(shuffled, secret));
}

/// Whether entries that differ have digests that differ under `secret`, as
/// they do unless the hash function has been broken.
pub open spec fn no_collisions(entries: Seq<Seq<char>>, secret: Seq<u8>) -> bool {
    forall|i: int, j: int|
        0 <= i < entries.len() && 0 <= j < entries.len() && entry_digest(
            #[trigger] entries[i],
            secret,
        ) == entry_digest(#[trigger] entries[j], secret) ==> entries[i] == entries[j]
}

/// Filtering keeps an item that passes as often as it stood in the sequence,
/// and keeps no other.
pub proof fn lemma_filter_count<A>(items: Seq<A>, pred: spec_fn(A) -> bool, item: A)
    ensures
        items.filter(pred).to_multiset().count(item) == if pred(item) {
            items.to_multiset().count(item)
        } else {
            0
        },
    decreases items.len(),
{
    if items.len() == 0 {
        items.lemma_filter_len(pred);
        assert(items.filter(pred) =~= items);
        to_multiset_len(items);
        to_multiset_contains(items, item);
    } else {
        let front = items.drop_last();
        let last = items.last();
        lemma_filter_count(front, pred, item);
        assert(front.push(last) =~= items);
        Seq::lemma_filter_push(front, last, pred);
        to_multiset_build(front, last);
        to_multiset_build(front.filter(pred), last);
    }
}

/// Order independence: where no two different entries have the same digest,
/// the outcome itself does not depend on the order in which the entries were
/// handed in.
pub proof fn lemma_lottery_order_free(
    entries: Seq<Seq<char>>,
    shuffled: Seq<Seq<char>>,
    secret: Seq<u8>,
)
    requires
        entries.to_multiset() == shuffled.to_multiset(),
        no_collisions(entries, secret),
    ensures
        lottery(entries, secret) == lottery(shuffled, secret),
{
    let pairs = hashed(entries, secret);
    let others = hashed(shuffled, secret);
    lemma_map_values_permutation(
        entries,
        shuffled,
        |entry: Seq<char>| (entry_digest(entry, secret), entry),
    );
    assert(pairs.to_multiset() == others.to_multiset());
    assert forall|digest: Seq<u8>| #[trigger]
        ranked(others).filter(has_digest(digest)) == pairs.filter(has_digest(digest)) by {
        let pred = has_digest(digest);
        let kept = pairs.filter(pred);
        let other_kept = others.filter(pred);
        lemma_ranked_stable(others, digest);
        assert forall|pair: Pair|
            kept.to_multiset().count(pair) == other_kept.to_multiset().count(pair) by {
            lemma_filter_count(pairs, pred, pair);
            lemma_filter_count(others, pred, pair);
        }
        assert(kept.to_multiset() =~= other_kept.to_multiset());
        to_multiset_len(kept);
        to_multiset_len(other_kept);
        assert forall|k: int| 0 <= k < kept.len() implies kept[k] == other_kept[k] by {
            let here = kept[k];
            let there = other_kept[k];
            pairs.lemma_filter_pred(pred, k);
            others.lemma_filter_pred(pred, k);
            assert(kept.contains(here));
            assert(other_kept.contains(there));
            pairs.lemma_filter_contains_rev(pred, here);
            others.lemma_filter_contains_rev(pred, there);
            to_multiset_contains(others, there);
            to_multiset_contains(pairs, there);
            let i = choose|i: int| 0 <= i < pairs.len() && pairs[i] == here;
            let j = choose|j: int| 0 <= j < pairs.len() && pairs[j] == there;
            assert(pairs[i] == (entry_digest(entries[i], secret), entries[i]));
            assert(pairs[j] == (entry_digest(entries[j], secret), entries[j]));
        }
        assert(kept =~= other_kept);
    }
    assert(keeps_order_of(ranked(others), pairs));
    lemma_ranked_is_ranked(others);
    lemma_ranked_unique(ranked(others), pairs);
}

/// The ranking of a lottery holds every entry once for each time it was handed
/// in, behind its digest, and its digests never decrease.
pub proof fn lemma_lottery_ranks_all(entries: Seq<Seq<char>>, secret: Seq<u8>)
    ensures
        lottery(entries, secret).ordered_entries.len() == entries.len(),
        lottery(entries, secret).ordered_entries.to_multiset() == hashed(
            entries,
            secret,
        ).to_multiset(),
        is_ranked(lottery(entries, secret).ordered_entries),
{
    lemma_ranked_len(hashed(entries, secret));
    lemma_ranked_permutes(hashed(entries, secret));
    lemma_ranked_is_ranked(hashed(entries, secret));
}

/// Verification soundness: an outcome is genuine exactly when each of its
/// digests is the digest of its entry under its secret and its digests never
/// decrease.
pub proof fn lemma_genuine_iff(outcome: OutcomeView)
    ensures
        outcome.is_genuine() <==> is_well_hashed(outcome.ordered_entries, outcome.secret)
            && is_ranked(outcome.ordered_entries),
{
    let ranking = outcome.ordered_entries;
    let pairs = hashed(entries_of(ranking), outcome.secret);
    if outcome.is_genuine() {
        assert(ranking == ranked(pairs));
        lemma_ranked_is_ranked(pairs);
        lemma_ranked_permutes(pairs);
        assert forall|i: int| 0 <= i < ranking.len() implies (#[trigger] ranking[i]).0
            == entry_digest(ranking[i].1, outcome.secret) by {
            to_multiset_contains(ranking, ranking[i]);
            to_multiset_contains(pairs, ranking[i]);
            assert(ranking.contains(ranking[i]));
            let j = choose|j: int| 0 <= j < pairs.len() && pairs[j] == ranking[i];
            assert(pairs[j].0 == entry_digest(pairs[j].1, outcome.secret));
        }
    }
    if is_well_hashed(ranking, outcome.secret) && is_ranked(ranking) {
        assert(pairs =~= ranking);
        lemma_ranked_of_ranked(ranking);
    }
}

/// Tamper sensitivity, digests: a genuine outcome in which one digest has been
/// changed, by as little as one bit, is no longer genuine.
pub proof fn lemma_tampered_digest(outcome: OutcomeView, index: int, digest: Seq<u8>)
    requires
        outcome.is_genuine(),
        0 <= index < outcome.ordered_entries.len(),
        digest != outcome.ordered_entries[index].0,
    ensures
        !with_digest(outcome, index, digest).is_genuine(),
{
    let tampered = with_digest(outcome, index, digest);
    lemma_genuine_iff(outcome);
    lemma_genuine_iff(tampered);
    assert(tampered.ordered_entries[index].0 != entry_digest(
        tampered.ordered_entries[index].1,
        tampered.secret,
    ));
}

/// Tamper sensitivity, entries: an outcome in which one entry has been
/// replaced by an entry with another digest is not genuine.
pub proof fn lemma_tampered_entry(outcome: OutcomeView, index: int, entry: Seq<char>)
    requires
        0 <= index < outcome.ordered_entries.len(),
        entry_digest(entry, outcome.secret) != outcome.ordered_entries[index].0,
    ensures
        !with_entry(outcome, index, entry).is_genuine(),
{
    let tampered = with_entry(outcome, index, entry);
    lemma_genuine_iff(tampered);
    assert(tampered.ordered_entries[index].0 != entry_digest(
        tampered.ordered_entries[index].1,
        tampered.secret,
    ));
}

/// Tamper sensitivity, secret: an outcome whose secret has been replaced by
/// one under which some entry has another digest is not genuine.
pub proof fn lemma_tampered_secret(outcome: OutcomeView, secret: Seq<u8>, index: int)
    requires
        0 <= index < outcome.ordered_entries.len(),
        entry_digest(outcome.ordered_entries[index].1, secret)
            != outcome.ordered_entries[index].0,
    ensures
        !with_secret(outcome, secret).is_genuine(),
{
    let tampered = with_secret(outcome, secret);
    lemma_genuine_iff(tampered);
    assert(tampered.ordered_entries[index].0 != entry_digest(
        tampered.ordered_entries[index].1,
        tampered.secret,
    ));
}

/// An outcome without entries is genuine, whatever its secret.
pub proof fn lemma_empty_is_genuine(secret: Seq<u8>)
    ensures
        lottery(Seq::empty(), secret).ordered_entries == Seq::<Pair>::empty(),
        (OutcomeView { ordered_entries: Seq::empty(), secret }).is_genuine(),
{
    let outcome = OutcomeView { ordered_entries: Seq::empty(), secret };
    assert(hashed(Seq::empty(), secret) =~= Seq::empty());
    assert(entries_of(outcome.ordered_entries) =~= Seq::empty());
    assert(outcome.ordered_entries =~= lottery(Seq::empty(), secret).ordered_entries);
}

/// Round trip of a digest through its text form: the text of 64 bytes is a
/// digest's text, and reading it gives the 64 bytes back.
pub proof fn lemma_digest_text_round_trip(digest: Seq<u8>)
    requires
        digest.len() == 64,
    ensures
        is_digest_text(hex_encoding(digest)),
        hex_decoding(ascii_bytes(hex_encoding(digest))) == digest,
{
    lemma_hex_encoding_is_hex(digest);
    lemma_hex_round_trip(digest);
}

/// Round trip of a secret through its text form: the text of a secret is
/// hexadecimal, and reading it gives the secret back.
pub proof fn lemma_secret_text_round_trip(secret: Seq<u8>)
    ensures
        is_hex_bytes(ascii_bytes(hex_encoding(secret))),
        hex_decoding(ascii_bytes(hex_encoding(secret))) == secret,
{
    lemma_hex_encoding_is_hex(secret);
    lemma_hex_round_trip(secret);
}

} // verus!
