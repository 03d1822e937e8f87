//! Ranking entries by their digests.

use crate::hash::{
    digest_le, lemma_digest_le_antisymmetric, lemma_digest_le_reflexive, lemma_digest_le_total,
    lemma_digest_le_transitive,
};
use vstd::prelude::*;
use vstd::seq_lib::to_multiset_insert;

verus! {

/// An entry behind its digest.
pub type HashedEntry = (crate::hash::Hash, String);

/// What an entry behind its digest stands for: the digest's bytes and the
/// entry's characters.
pub type Pair = (Seq<u8>, Seq<char>);

/// What a digest and its entry stand for.
pub open spec fn pair_view(pair: HashedEntry) -> Pair {
    (pair.0@, pair.1@)
}

/// What each of a list of digests with their entries stands for.
pub open spec fn pairs_view(pairs: Seq<HashedEntry>) -> Seq<Pair> {
    pairs.map_values(|pair: HashedEntry| pair_view(pair))
}

/// Whether the digests of `ranking` never decrease.
pub open spec fn is_ranked(ranking: Seq<Pair>) -> bool {
    forall|i: int, j: int|
        0 <= i <= j < ranking.len() ==> digest_le(#[trigger] ranking[i].0, #[trigger] ranking[j].0)
}

/// Where a pair with `digest` joins `ranking`: behind the last pair whose
/// digest comes no later than `digest`.
pub open spec fn rank_of(ranking: Seq<Pair>, digest: Seq<u8>) -> int
    decreases ranking.len(),
{
    if ranking.len() == 0 {
        0
    } else if digest_le(ranking.last().0, digest) {
        ranking.len() as int
    } else {
        rank_of(ranking.drop_last(), digest)
    }
}

/// The ranking with `pair` added at its rank.
pub open spec fn placed(ranking: Seq<Pair>, pair: Pair) -> Seq<Pair> {
    ranking.insert(rank_of(ranking, pair.0), pair)
}

/// The pairs in ascending order of their digests; pairs with the same digest
/// stay in the order in which they came.
pub open spec fn ranked(pairs: Seq<Pair>) -> Seq<Pair>
    decreases pairs.len(),
{
    if pairs.len() == 0 {
        pairs
    } else {
        placed(ranked(pairs.drop_last()), pairs.last())
    }
}

/// Two rankings as one: the pairs of both in ascending order of their digests,
/// those of `first` in front of those of `second` where the digests are equal.
pub open spec fn merged(first: Seq<Pair>, second: Seq<Pair>) -> Seq<Pair>
    decreases first.len() + second.len(),
{
    if first.len() == 0 {
        second
    } else if second.len() == 0 {
        first
    } else if digest_le(first.last().0, second.last().0) {
        merged(first, second.drop_last()).push(second.last())
    } else {
        merged(first.drop_last(), second).push(first.last())
    }
}

/// A rank lies within the ranking; the pair in front of it, if any, comes no
/// later than the digest, and every pair from it on comes strictly later.
pub proof fn lemma_rank_of(ranking: Seq<Pair>, digest: Seq<u8>)
    ensures
        0 <= rank_of(ranking, digest) <= ranking.len(),
        rank_of(ranking, digest) > 0 ==> digest_le(
            ranking[rank_of(ranking, digest) - 1].0,
            digest,
        ),
        forall|j: int|
            rank_of(ranking, digest) <= j < ranking.len() ==> !digest_le(
                (#[trigger] ranking[j]).0,
                digest,
            ),
    decreases ranking.len(),
{
    if ranking.len() > 0 && !digest_le(ranking.last().0, digest) {
        let front = ranking.drop_last();
        lemma_rank_of(front, digest);
        assert forall|j: int| rank_of(ranking, digest) <= j < ranking.len() implies !digest_le(
            (#[trigger] ranking[j]).0,
            digest,
        ) by {
            if j < front.len() {
                assert(ranking[j] == front[j]);
            }
        }
    }
}

/// Ranking keeps the number of pairs.
pub proof fn lemma_ranked_len(pairs: Seq<Pair>)
    ensures
        ranked(pairs).len() == pairs.len(),
    decreases pairs.len(),
{
    if pairs.len() > 0 {
        lemma_ranked_len(pairs.drop_last());
        lemma_rank_of(ranked(pairs.drop_last()), pairs.last().0);
    }
}

/// The digests of a ranking never decrease.
pub proof fn lemma_ranked_is_ranked(pairs: Seq<Pair>)
    ensures
        is_ranked(ranked(pairs)),
    decreases pairs.len(),
{
    if pairs.len() > 0 {
        let earlier = ranked(pairs.drop_last());
        let digest = pairs.last().0;
        let rank = rank_of(earlier, digest);
        let ranking = ranked(pairs);
        lemma_ranked_is_ranked(pairs.drop_last());
        lemma_rank_of(earlier, digest);
        lemma_digest_le_reflexive(digest);
        assert forall|i: int, j: int| 0 <= i <= j < ranking.len() implies digest_le(
            #[trigger] ranking[i].0,
            #[trigger] ranking[j].0,
        ) by {
            if j < rank {
                assert(ranking[i] == earlier[i] && ranking[j] == earlier[j]);
            } else if j == rank {
                if i < rank {
                    assert(ranking[i] == earlier[i]);
                    assert(digest_le(earlier[i].0, earlier[rank - 1].0));
                    lemma_digest_le_transitive(earlier[i].0, earlier[rank - 1].0, digest);
                }
            } else {
                assert(ranking[j] == earlier[j - 1]);
                assert(!digest_le(earlier[j - 1].0, digest));
                lemma_digest_le_total(earlier[j - 1].0, digest);
                if i < rank {
                    assert(ranking[i] == earlier[i]);
                    assert(digest_le(earlier[i].0, earlier[j - 1].0));
                } else if i == rank {
                } else {
                    assert(ranking[i] == earlier[i - 1]);
                    assert(digest_le(earlier[i - 1].0, earlier[j - 1].0));
                }
            }
        }
    }
}

/// Pairs whose digests never decrease are their own ranking.
pub proof fn lemma_ranked_of_ranked(ranking: Seq<Pair>)
    requires
        is_ranked(ranking),
    ensures
        ranked(ranking) == ranking,
    decreases ranking.len(),
{
    if ranking.len() > 0 {
        let front = ranking.drop_last();
        assert(is_ranked(front)) by {
            assert forall|i: int, j: int| 0 <= i <= j < front.len() implies digest_le(
                #[trigger] front[i].0,
                #[trigger] front[j].0,
            ) by {
                assert(front[i] == ranking[i] && front[j] == ranking[j]);
            }
        }
        lemma_ranked_of_ranked(front);
        if front.len() > 0 {
            assert(front.last() == ranking[front.len() - 1]);
            assert(digest_le(ranking[front.len() - 1].0, ranking[ranking.len() - 1].0));
        }
        assert(rank_of(front, ranking.last().0) == front.len());
        assert(front.insert(front.len() as int, ranking.last()) =~= ranking);
    }
}

/// A ranking holds the pairs it was made from, each as often as it came.
pub proof fn lemma_ranked_permutes(pairs: Seq<Pair>)
    ensures
        ranked(pairs).to_multiset() == pairs.to_multiset(),
    decreases pairs.len(),
{
    if pairs.len() > 0 {
        let earlier = ranked(pairs.drop_last());
        lemma_ranked_permutes(pairs.drop_last());
        lemma_rank_of(earlier, pairs.last().0);
        to_multiset_insert(earlier, rank_of(earlier, pairs.last().0), pairs.last());
        to_multiset_insert(pairs.drop_last(), pairs.len() - 1, pairs.last());
        assert(pairs.drop_last().insert(pairs.len() - 1, pairs.last()) =~= pairs);
    }
}

/// Whether a pair has the digest `digest`.
pub open spec fn has_digest(digest: Seq<u8>) -> spec_fn(Pair) -> bool {
    |pair: Pair| pair.0 == digest
}

/// Ranking is stable: the pairs with any one digest stand in the ranking in
/// the order in which they came.
pub proof fn lemma_ranked_stable(pairs: Seq<Pair>, digest: Seq<u8>)
    ensures
        ranked(pairs).filter(has_digest(digest)) == pairs.filter(has_digest(digest)),
    decreases pairs.len(),
{
    let pred = has_digest(digest);
    if pairs.len() > 0 {
        let front = pairs.drop_last();
        let pair = pairs.last();
        let ranking = ranked(front);
        let rank = rank_of(ranking, pair.0);
        let head = ranking.take(rank);
        let tail = ranking.skip(rank);
        lemma_rank_of(ranking, pair.0);
        lemma_ranked_stable(front, digest);
        assert(front.push(pair) =~= pairs);
        assert(head + tail =~= ranking);
        assert(head.push(pair) + tail =~= placed(ranking, pair));
        Seq::lemma_filter_push(front, pair, pred);
        Seq::lemma_filter_push(head, pair, pred);
        Seq::filter_distributes_over_add(head, tail, pred);
        Seq::filter_distributes_over_add(head.push(pair), tail, pred);
        if pred(pair) {
            lemma_digest_le_reflexive(digest);
            assert forall|j: int| 0 <= j < tail.len() implies !pred(#[trigger] tail[j]) by {
                assert(tail[j] == ranking[rank + j]);
            }
            tail.lemma_all_neg_filter_empty(pred);
            assert(tail.filter(pred) =~= Seq::empty());
            assert(head.filter(pred) + tail.filter(pred) =~= head.filter(pred));
            assert(head.filter(pred).push(pair) + tail.filter(pred) =~= head.filter(pred).push(
                pair,
            ));
        }
    }
}

/// Whether `ranking` holds, for every digest, the pairs of `pairs` with that
/// digest in the order in which they stand there.
pub open spec fn keeps_order_of(ranking: Seq<Pair>, pairs: Seq<Pair>) -> bool {
    forall|digest: Seq<u8>| #[trigger]
        ranking.filter(has_digest(digest)) == pairs.filter(has_digest(digest))
}

/// The last pair of a list is the last of the pairs with its digest, and
/// leaves the pairs with other digests as they are.
proof fn lemma_filter_last(pairs: Seq<Pair>, digest: Seq<u8>)
    requires
        pairs.len() > 0,
    ensures
        pairs.filter(has_digest(digest)) == if pairs.last().0 == digest {
            pairs.drop_last().filter(has_digest(digest)).push(pairs.last())
        } else {
            pairs.drop_last().filter(has_digest(digest))
        },
{
    assert(pairs.drop_last().push(pairs.last()) =~= pairs);
    Seq::lemma_filter_push(pairs.drop_last(), pairs.last(), has_digest(digest));
}

/// The last digest of a ranking comes no earlier than the last digest of
/// another ranking of the same pairs.
proof fn lemma_last_digest(first: Seq<Pair>, second: Seq<Pair>)
    requires
        is_ranked(second),
        keeps_order_of(first, second),
        first.len() > 0,
    ensures
        second.len() > 0,
        digest_le(first.last().0, second.last().0),
{
    let digest = first.last().0;
    let pred = has_digest(digest);
    lemma_filter_last(first, digest);
    let kept = second.filter(pred);
    assert(kept == first.filter(pred));
    assert(kept.last() == first.last());
    assert(kept.contains(first.last()));
    second.lemma_filter_contains_rev(pred, first.last());
    let j = choose|j: int| 0 <= j < second.len() && second[j] == first.last();
    assert(digest_le(second[j].0, second[second.len() - 1].0));
}

/// Two rankings that hold, for every digest, the same pairs in the same order
/// are the same ranking.
pub proof fn lemma_rankings_agree(first: Seq<Pair>, second: Seq<Pair>)
    requires
        is_ranked(first),
        is_ranked(second),
        keeps_order_of(first, second),
    ensures
        first == second,
    decreases first.len(),
{
    assert(keeps_order_of(second, first)) by {
        assert forall|digest: Seq<u8>| #[trigger]
            second.filter(has_digest(digest)) == first.filter(has_digest(digest)) by {
            assert(first.filter(has_digest(digest)) == second.filter(has_digest(digest)));
        }
    }
    if first.len() == 0 {
        if second.len() > 0 {
            lemma_last_digest(second, first);
        }
        assert(first =~= second);
    } else {
        lemma_last_digest(first, second);
        lemma_last_digest(second, first);
        let digest = first.last().0;
        lemma_digest_le_antisymmetric(digest, second.last().0);
        let first_front = first.drop_last();
        let second_front = second.drop_last();
        lemma_filter_last(first, digest);
        lemma_filter_last(second, digest);
        assert(first.filter(has_digest(digest)) == second.filter(has_digest(digest)));
        assert(first.last() == second.last()) by {
            assert(first_front.filter(has_digest(digest)).push(first.last()).last()
                == first.last());
            assert(second_front.filter(has_digest(digest)).push(second.last()).last()
                == second.last());
        }
        assert forall|other: Seq<u8>| #[trigger]
            first_front.filter(has_digest(other)) == second_front.filter(has_digest(other)) by {
            lemma_filter_last(first, other);
            lemma_filter_last(second, other);
            assert(first.filter(has_digest(other)) == second.filter(has_digest(other)));
            if other == digest {
                let a = first_front.filter(has_digest(other));
                let b = second_front.filter(has_digest(other));
                assert(a.push(first.last()).drop_last() =~= a);
                assert(b.push(second.last()).drop_last() =~= b);
            }
        }
        assert(is_ranked(first_front)) by {
            assert forall|i: int, j: int| 0 <= i <= j < first_front.len() implies digest_le(
                #[trigger] first_front[i].0,
                #[trigger] first_front[j].0,
            ) by {
                assert(first_front[i] == first[i] && first_front[j] == first[j]);
            }
        }
        assert(is_ranked(second_front)) by {
            assert forall|i: int, j: int| 0 <= i <= j < second_front.len() implies digest_le(
                #[trigger] second_front[i].0,
                #[trigger] second_front[j].0,
            ) by {
                assert(second_front[i] == second[i] && second_front[j] == second[j]);
            }
        }
        lemma_rankings_agree(first_front, second_front);
        assert(first =~= first_front.push(first.last()));
        assert(second =~= second_front.push(second.last()));
    }
}

/// What a ranking is: the one list whose digests never decrease and that
/// holds, for every digest, the pairs with that digest in the order in which
/// they came.
pub proof fn lemma_ranked_unique(ranking: Seq<Pair>, pairs: Seq<Pair>)
    ensures
        ranking == ranked(pairs) <==> is_ranked(ranking) && keeps_order_of(ranking, pairs),
{
    lemma_ranked_is_ranked(pairs);
    assert(keeps_order_of(ranked(pairs), pairs)) by {
        assert forall|digest: Seq<u8>| #[trigger]
            ranked(pairs).filter(has_digest(digest)) == pairs.filter(has_digest(digest)) by {
            lemma_ranked_stable(pairs, digest);
        }
    }
    if is_ranked(ranking) && keeps_order_of(ranking, pairs) {
        assert(keeps_order_of(ranking, ranked(pairs))) by {
            assert forall|digest: Seq<u8>| #[trigger]
                ranking.filter(has_digest(digest)) == ranked(pairs).filter(
                    has_digest(digest),
                ) by {
                assert(ranking.filter(has_digest(digest)) == pairs.filter(has_digest(digest)));
            }
        }
        lemma_rankings_agree(ranking, ranked(pairs));
    }
}

/// A pair that comes no earlier than the last of a ranking joins it at the end.
proof fn lemma_placed_last(ranking: Seq<Pair>, pair: Pair)
    requires
        ranking.len() == 0 || digest_le(ranking.last().0, pair.0),
    ensures
        placed(ranking, pair) == ranking.push(pair),
{
    assert(ranking.insert(ranking.len() as int, pair) =~= ranking.push(pair));
}

/// A pair joins a ranking in front of a last pair that comes strictly later.
proof fn lemma_placed_push(ranking: Seq<Pair>, last: Pair, pair: Pair)
    requires
        !digest_le(last.0, pair.0),
    ensures
        placed(ranking.push(last), pair) == placed(ranking, pair).push(last),
{
    assert(ranking.push(last).drop_last() =~= ranking);
    lemma_rank_of(ranking, pair.0);
    let rank = rank_of(ranking, pair.0);
    assert(ranking.push(last).insert(rank, pair) =~= ranking.insert(rank, pair).push(last));
}

/// Merging keeps every pair, and ends on the last pair of one of the two.
proof fn lemma_merged_last(first: Seq<Pair>, second: Seq<Pair>)
    ensures
        merged(first, second).len() == first.len() + second.len(),
        first.len() + second.len() > 0 ==> (first.len() > 0 && merged(first, second).last()
            == first.last()) || (second.len() > 0 && merged(first, second).last()
            == second.last()),
    decreases first.len() + second.len(),
{
    if first.len() > 0 && second.len() > 0 {
        if digest_le(first.last().0, second.last().0) {
            lemma_merged_last(first, second.drop_last());
        } else {
            lemma_merged_last(first.drop_last(), second);
        }
    }
}

/// Adding a pair to the merge of two rankings is adding it to the second and
/// merging then.
proof fn lemma_placed_merged(first: Seq<Pair>, second: Seq<Pair>, pair: Pair)
    ensures
        placed(merged(first, second), pair) == merged(first, placed(second, pair)),
    decreases first.len() + second.len(),
{
    let grown = placed(second, pair);
    lemma_rank_of(second, pair.0);
    if first.len() == 0 {
        assert(merged(first, second) == second);
        assert(merged(first, grown) == grown);
    } else if rank_of(second, pair.0) == second.len() {
        assert(grown =~= second.push(pair));
        assert(grown.drop_last() =~= second);
        assert(grown.last() == pair);
        if digest_le(first.last().0, pair.0) {
            assert(merged(first, grown) == merged(first, second).push(pair));
            lemma_merged_last(first, second);
            lemma_placed_last(merged(first, second), pair);
        } else {
            assert(merged(first, grown) == merged(first.drop_last(), grown).push(first.last()));
            lemma_placed_merged(first.drop_last(), second, pair);
            if second.len() > 0 {
                if digest_le(first.last().0, second.last().0) {
                    lemma_digest_le_transitive(first.last().0, second.last().0, pair.0);
                }
                assert(merged(first, second) == merged(first.drop_last(), second).push(
                    first.last(),
                ));
            } else {
                assert(first.drop_last().push(first.last()) =~= first);
                assert(merged(first, second) == first);
                assert(merged(first.drop_last(), second) =~= first.drop_last());
            }
            lemma_placed_push(merged(first.drop_last(), second), first.last(), pair);
        }
    } else {
        lemma_rank_of(second.drop_last(), pair.0);
        assert(!digest_le(second.last().0, pair.0));
        assert(grown.last() == second.last());
        assert(grown.drop_last() =~= placed(second.drop_last(), pair));
        if digest_le(first.last().0, second.last().0) {
            assert(merged(first, grown) == merged(first, grown.drop_last()).push(grown.last()));
            assert(merged(first, second) == merged(first, second.drop_last()).push(
                second.last(),
            ));
            lemma_placed_merged(first, second.drop_last(), pair);
            lemma_placed_push(merged(first, second.drop_last()), second.last(), pair);
        } else {
            assert(merged(first, grown) == merged(first.drop_last(), grown).push(first.last()));
            assert(merged(first, second) == merged(first.drop_last(), second).push(
                first.last(),
            ));
            lemma_placed_merged(first.drop_last(), second, pair);
            if digest_le(first.last().0, pair.0) {
                lemma_digest_le_total(pair.0, second.last().0);
                lemma_digest_le_transitive(first.last().0, pair.0, second.last().0);
            }
            lemma_placed_push(merged(first.drop_last(), second), first.last(), pair);
        }
    }
}

/// Ranking a list is ranking its front and its back and merging the two.
pub proof fn lemma_ranked_concat(front: Seq<Pair>, back: Seq<Pair>)
    ensures
        ranked(front + back) == merged(ranked(front), ranked(back)),
    decreases back.len(),
{
    if back.len() == 0 {
        assert(front + back =~= front);
        assert(ranked(back) =~= back);
    } else {
        lemma_ranked_concat(front, back.drop_last());
        assert((front + back).drop_last() =~= front + back.drop_last());
        lemma_placed_merged(ranked(front), ranked(back.drop_last()), back.last());
    }
}

/// Merges two rankings into one. Where digests are equal, the pairs of `first`
/// come in front of those of `second`.
fn merge(first: Vec<HashedEntry>, second: Vec<HashedEntry>) -> (all: Vec<HashedEntry>)
    ensures
        pairs_view(all@) == merged(pairs_view(first@), pairs_view(second@)),
{
    let ghost goal = merged(pairs_view(first@), pairs_view(second@));
    let mut first = first;
    let mut second = second;
    let mut tail: Vec<HashedEntry> = Vec::new();
    assert(pairs_view(tail@).reverse() =~= Seq::empty());
    while first.len() > 0 && second.len() > 0
        invariant
            goal == merged(pairs_view(first@), pairs_view(second@)) + pairs_view(tail@).reverse(),
        decreases first.len() + second.len(),
    {
        let ghost a = pairs_view(first@);
        let ghost b = pairs_view(second@);
        let ghost t = pairs_view(tail@);
        let from_second = first[first.len() - 1].0.le(&second[second.len() - 1].0);
        let next = if from_second {
            second.pop()
        } else {
            first.pop()
        };
        match next {
            Some(pair) => {
                tail.push(pair);
                proof {
                    assert(pairs_view(tail@) =~= t.push(pair_view(pair)));
                    assert(pairs_view(tail@).reverse() =~= seq![pair_view(pair)] + t.reverse());
                    if from_second {
                        assert(pairs_view(second@) =~= b.drop_last());
                        assert(pair_view(pair) == b.last());
                    } else {
                        assert(pairs_view(first@) =~= a.drop_last());
                        assert(pair_view(pair) == a.last());
                    }
                    assert(merged(a, b) + t.reverse() =~= merged(
                        pairs_view(first@),
                        pairs_view(second@),
                    ) + pairs_view(tail@).reverse());
                }
            },
            None => {},
        }
    }
    let mut all = if first.len() > 0 {
        first
    } else {
        second
    };
    while tail.len() > 0
        invariant
            goal == pairs_view(all@) + pairs_view(tail@).reverse(),
        decreases tail.len(),
    {
        let ghost r = pairs_view(all@);
        let ghost t = pairs_view(tail@);
        match tail.pop() {
            Some(pair) => {
                all.push(pair);
                proof {
                    assert(pairs_view(tail@) =~= t.drop_last());
                    assert(pairs_view(all@) =~= r.push(t.last()));
                    assert(t.reverse() =~= seq![t.last()] + t.drop_last().reverse());
                    assert(r + t.reverse() =~= pairs_view(all@) + pairs_view(tail@).reverse());
                }
            },
            None => {},
        }
    }
    assert(pairs_view(tail@).reverse() =~= Seq::empty());
    assert(pairs_view(all@) + Seq::empty() =~= pairs_view(all@));
    all
}

/// Ranks `pairs` by halving the list, ranking each half, and merging the two.
fn rank(pairs: Vec<HashedEntry>) -> (ranking: Vec<HashedEntry>)
    ensures
        pairs_view(ranking@) == ranked(pairs_view(pairs@)),
    decreases pairs.len(),
{
    let ghost all = pairs_view(pairs@);
    let n = pairs.len();
    if n <= 1 {
        proof {
            reveal_with_fuel(ranked, 2);
            if n == 1 {
                assert(all.drop_last() =~= Seq::empty());
                assert(Seq::<Pair>::empty().insert(0, all.last()) =~= all);
            }
        }
        return pairs;
    }
    let mut front = pairs;
    let back = front.split_off(n / 2);
    proof {
        assert(pairs_view(front@) + pairs_view(back@) =~= all);
        lemma_ranked_concat(pairs_view(front@), pairs_view(back@));
    }
    let front_ranked = rank(front);
    let back_ranked = rank(back);
    merge(front_ranked, back_ranked)
}

/// Puts `pairs` in ascending order of their digests. Pairs with the same
/// digest keep the order in which they came.
pub fn sort_by_digest(pairs: &mut Vec<HashedEntry>)
    ensures
        pairs_view(final(pairs)@) == ranked(pairs_view(old(pairs)@)),
{
    let mut taken: Vec<HashedEntry> = Vec::new();
    taken.append(pairs);
    assert(taken@ =~= old(pairs)@);
    let mut ranking = rank(taken);
    let ghost ranks = ranking@;
    pairs.append(&mut ranking);
    assert(pairs@ =~= ranks);
}

} // verus!
