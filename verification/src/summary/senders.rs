//! Which registers send, by how often a pair of registers was found in which roles.

use super::votes::joined;
use crate::common::MmioAddress;
use crate::dma_analysis::types::RxTxPair;
use crate::dma_snippet::{snippet_views, DmaAnalysisSnippet, SnippetModel};
use crate::tables::set_insert;
use fxhash::FxHashSet;
use vstd::prelude::*;

verus! {

broadcast use vstd::std_specs::hash::group_hash_axioms;

/// How often a pair was found, and how often with its registers in each other's role. The numbers
/// are wide enough for any number of snippets.
#[derive(Debug)]
pub struct RxTxPairVote {
    pub pair: RxTxPair,
    pub reverse_pair: RxTxPair,
    pub num_votes: u128,
    pub num_reverse_votes: u128,
}

/// How often a pair was found.
pub open spec fn count_of(pairs: Seq<RxTxPair>, pair: RxTxPair) -> nat
    decreases pairs.len(),
{
    if pairs.len() == 0 {
        0
    } else {
        count_of(pairs.drop_last(), pair) + if pairs.last() == pair {
            1nat
        } else {
            0
        }
    }
}

/// How often a pair was found with its registers in each other's role.
pub open spec fn count_against(pairs: Seq<RxTxPair>, pair: RxTxPair) -> nat {
    if pair.reversed() == pair {
        0
    } else {
        count_of(pairs, pair.reversed())
    }
}

/// The pair at `i` was not found before, in neither role of its registers.
pub open spec fn is_first(pairs: Seq<RxTxPair>, i: int) -> bool {
    &&& 0 <= i < pairs.len()
    &&& forall|j: int|
        0 <= j < i ==> (#[trigger] pairs[j]) != pairs[i] && pairs[j] != pairs[i].reversed()
}

/// The register that sends, by how often the pair was found in which roles. Where both were found
/// equally often, it is the one that received when the pair was first found.
pub open spec fn sender_of(pairs: Seq<RxTxPair>, pair: RxTxPair) -> MmioAddress {
    if count_of(pairs, pair) > count_against(pairs, pair) {
        pair.tx_reg
    } else {
        pair.rx_reg
    }
}

/// The registers that send in some pair.
pub open spec fn senders(pairs: Seq<RxTxPair>) -> Set<MmioAddress> {
    Set::new(
        |r: MmioAddress|
            exists|i: int| #[trigger] is_first(pairs, i) && sender_of(pairs, pairs[i]) == r,
    )
}

/// The pairs of all snippets, in their order.
pub open spec fn all_pairs(snippets: Seq<SnippetModel>) -> Seq<RxTxPair> {
    joined(snippets.map_values(|s: SnippetModel| s.rx_tx_pairs))
}

/// A pair that was not found was found zero times, and none more often than there are pairs.
proof fn lemma_count_of(pairs: Seq<RxTxPair>, pair: RxTxPair)
    ensures
        !pairs.contains(pair) ==> count_of(pairs, pair) == 0,
        count_of(pairs, pair) <= pairs.len(),
    decreases pairs.len(),
{
    if pairs.len() > 0 {
        lemma_count_of(pairs.drop_last(), pair);
        assert(pairs.contains(pairs.last()));
        assert(pairs.drop_last().contains(pair) ==> pairs.contains(pair)) by {
            if pairs.drop_last().contains(pair) {
                let i = choose|i: int|
                    0 <= i < pairs.drop_last().len() && pairs.drop_last()[i] == pair;
                assert(pairs[i] == pair);
            }
        }
    }
}

/// The vote counts the pair, which was found first at some place.
spec fn counts(vote: RxTxPairVote, pairs: Seq<RxTxPair>) -> bool {
    &&& vote.reverse_pair == vote.pair.reversed()
    &&& vote.num_votes == count_of(pairs, vote.pair)
    &&& vote.num_reverse_votes == count_against(pairs, vote.pair)
    &&& exists|i: int| #[trigger] is_first(pairs, i) && pairs[i] == vote.pair
}

/// One of the votes counts the pair, in either role of its registers.
spec fn counted(votes: Seq<RxTxPairVote>, pair: RxTxPair) -> bool {
    exists|k: int|
        0 <= k < votes.len() && ((#[trigger] votes[k]).pair == pair || votes[k].pair.reversed()
            == pair)
}

/// The votes count the pairs.
spec fn count_pairs(votes: Seq<RxTxPairVote>, pairs: Seq<RxTxPair>) -> bool {
    &&& forall|k: int| 0 <= k < votes.len() ==> counts(#[trigger] votes[k], pairs)
    &&& forall|i: int| 0 <= i < pairs.len() ==> counted(votes, #[trigger] pairs[i])
    &&& forall|i: int| #[trigger]
        is_first(pairs, i) ==> exists|k: int|
            0 <= k < votes.len() && (#[trigger] votes[k]).pair == pairs[i]
    &&& forall|k: int, l: int|
        0 <= k < votes.len() && 0 <= l < votes.len() && k != l ==> (#[trigger] votes[k]).pair != (
        #[trigger] votes[l]).pair && votes[k].pair != votes[l].pair.reversed()
}

/// The places where pairs were found first stay with one more pair.
proof fn lemma_first_grows(pairs: Seq<RxTxPair>, pair: RxTxPair)
    ensures
        forall|i: int| #[trigger] is_first(pairs, i) ==> is_first(pairs.push(pair), i),
        forall|i: int| #[trigger]
            is_first(pairs.push(pair), i) && i < pairs.len() ==> is_first(pairs, i),
        is_first(pairs.push(pair), pairs.len() as int) <==> !pairs.contains(pair)
            && !pairs.contains(pair.reversed()),
        forall|other: RxTxPair| #[trigger]
            count_of(pairs.push(pair), other) == count_of(pairs, other) + (if other == pair {
                1nat
            } else {
                0
            }),
{
    let more = pairs.push(pair);
    assert(more.drop_last() =~= pairs);
    assert forall|i: int| #[trigger] is_first(pairs, i) implies is_first(more, i) by {
        assert forall|j: int| 0 <= j < i implies (#[trigger] more[j]) != more[i] && more[j]
            != more[i].reversed() by {
            assert(more[j] == pairs[j]);
        }
    }
    assert forall|i: int| #[trigger] is_first(more, i) && i < pairs.len() implies is_first(
        pairs,
        i,
    ) by {
        assert forall|j: int| 0 <= j < i implies (#[trigger] pairs[j]) != pairs[i] && pairs[j]
            != pairs[i].reversed() by {
            assert(more[j] == pairs[j]);
        }
    }
    if !pairs.contains(pair) && !pairs.contains(pair.reversed()) {
        assert forall|j: int| 0 <= j < pairs.len() implies (#[trigger] more[j]) != pair && more[j]
            != pair.reversed() by {
            assert(pairs[j] == more[j]);
            assert(pairs.contains(pairs[j]));
        }
    }
    if is_first(more, pairs.len() as int) {
        assert forall|j: int| 0 <= j < pairs.len() implies (#[trigger] pairs[j]) != pair
            && pairs[j] != pair.reversed() by {
            assert(more[j] == pairs[j]);
        }
    }
}

/// The votes count one more pair once the vote at `k` was raised.
proof fn lemma_vote_raised(
    before: Seq<RxTxPairVote>,
    after: Seq<RxTxPairVote>,
    pairs: Seq<RxTxPair>,
    pair: RxTxPair,
    k: int,
)
    requires
        count_pairs(before, pairs),
        0 <= k < before.len(),
        after.len() == before.len(),
        forall|l: int| 0 <= l < before.len() && l != k ==> after[l] == before[l],
        after[k].pair == before[k].pair,
        after[k].reverse_pair == before[k].reverse_pair,
        (before[k].pair == pair && after[k].num_votes == before[k].num_votes + 1
            && after[k].num_reverse_votes == before[k].num_reverse_votes) || (before[k].pair
            != pair && before[k].pair.reversed() == pair && after[k].num_votes
            == before[k].num_votes && after[k].num_reverse_votes == before[k].num_reverse_votes
            + 1),
    ensures
        count_pairs(after, pairs.push(pair)),
{
    let more = pairs.push(pair);
    lemma_first_grows(pairs, pair);
    assert(counts(before[k], pairs));
    let first = choose|i: int| #[trigger] is_first(pairs, i) && pairs[i] == before[k].pair;
    assert(pairs.contains(pairs[first]));
    assert(before[k].pair.reversed().reversed() == before[k].pair);
    assert(pairs.contains(pair) || pairs.contains(pair.reversed()));
    assert forall|l: int| 0 <= l < after.len() implies counts(#[trigger] after[l], more) by {
        assert(counts(before[l], pairs));
        let i = choose|i: int| #[trigger] is_first(pairs, i) && pairs[i] == before[l].pair;
        assert(is_first(more, i) && more[i] == after[l].pair);
        if l != k {
            assert(before[l].pair != before[k].pair);
            assert(before[l].pair != before[k].pair.reversed());
            assert(before[k].pair != before[l].pair.reversed());
            if before[l].pair.reversed() == pair {
                assert(before[l].pair == pair.reversed());
                assert(false);
            }
        }
    }
    assert forall|i: int| 0 <= i < more.len() implies counted(after, #[trigger] more[i]) by {
        if i < pairs.len() {
            assert(counted(before, pairs[i]));
            let l = choose|l: int|
                0 <= l < before.len() && ((#[trigger] before[l]).pair == pairs[i]
                    || before[l].pair.reversed() == pairs[i]);
            assert(after[l].pair == before[l].pair);
        } else {
            assert(after[k].pair == pair || after[k].pair.reversed() == pair);
        }
    }
    assert forall|i: int| #[trigger] is_first(more, i) implies exists|l: int|
        0 <= l < after.len() && (#[trigger] after[l]).pair == more[i] by {
        assert(is_first(pairs, i));
        let l = choose|l: int| 0 <= l < before.len() && (#[trigger] before[l]).pair == pairs[i];
        assert(after[l].pair == more[i]);
    }
    assert forall|a: int, b: int|
        0 <= a < after.len() && 0 <= b < after.len() && a != b implies (#[trigger] after[a]).pair
        != (#[trigger] after[b]).pair && after[a].pair != after[b].pair.reversed() by {
        assert(before[a].pair != before[b].pair && before[a].pair != before[b].pair.reversed());
    }
}

/// The votes count one more pair once a vote for it was added.
proof fn lemma_vote_added(
    before: Seq<RxTxPairVote>,
    vote: RxTxPairVote,
    pairs: Seq<RxTxPair>,
    pair: RxTxPair,
)
    requires
        count_pairs(before, pairs),
        !counted(before, pair),
        vote.pair == pair,
        vote.reverse_pair == pair.reversed(),
        vote.num_votes == 1,
        vote.num_reverse_votes == 0,
    ensures
        count_pairs(before.push(vote), pairs.push(pair)),
{
    let more = pairs.push(pair);
    let after = before.push(vote);
    lemma_first_grows(pairs, pair);
    assert(pair.reversed().reversed() == pair);
    assert(!pairs.contains(pair)) by {
        if pairs.contains(pair) {
            let i = choose|i: int| 0 <= i < pairs.len() && pairs[i] == pair;
            assert(counted(before, pairs[i]));
        }
    }
    assert(!pairs.contains(pair.reversed())) by {
        if pairs.contains(pair.reversed()) {
            let i = choose|i: int| 0 <= i < pairs.len() && pairs[i] == pair.reversed();
            assert(counted(before, pairs[i]));
            let l = choose|l: int|
                0 <= l < before.len() && ((#[trigger] before[l]).pair == pairs[i]
                    || before[l].pair.reversed() == pairs[i]);
            assert(before[l].pair.reversed().reversed() == before[l].pair);
            assert(before[l].pair.reversed() == pair || before[l].pair == pair);
        }
    }
    lemma_count_of(pairs, pair);
    lemma_count_of(pairs, pair.reversed());
    assert(is_first(more, pairs.len() as int));
    assert forall|l: int| 0 <= l < after.len() implies counts(#[trigger] after[l], more) by {
        if l < before.len() {
            assert(counts(before[l], pairs));
            let i = choose|i: int| #[trigger] is_first(pairs, i) && pairs[i] == before[l].pair;
            assert(is_first(more, i) && more[i] == after[l].pair);
            assert(before[l].pair != pair && before[l].pair.reversed() != pair);
        } else {
            assert(is_first(more, pairs.len() as int) && more[pairs.len() as int] == vote.pair);
        }
    }
    assert forall|i: int| 0 <= i < more.len() implies counted(after, #[trigger] more[i]) by {
        if i < pairs.len() {
            assert(counted(before, pairs[i]));
            let l = choose|l: int|
                0 <= l < before.len() && ((#[trigger] before[l]).pair == pairs[i]
                    || before[l].pair.reversed() == pairs[i]);
            assert(after[l] == before[l]);
        } else {
            assert(after[before.len() as int].pair == pair);
        }
    }
    assert forall|i: int| #[trigger] is_first(more, i) implies exists|l: int|
        0 <= l < after.len() && (#[trigger] after[l]).pair == more[i] by {
        if i < pairs.len() {
            assert(is_first(pairs, i));
            let l = choose|l: int| 0 <= l < before.len() && (#[trigger] before[l]).pair == pairs[i];
            assert(after[l].pair == more[i]);
        } else {
            assert(after[before.len() as int].pair == more[i]);
        }
    }
    assert forall|a: int, b: int|
        0 <= a < after.len() && 0 <= b < after.len() && a != b implies (#[trigger] after[a]).pair
        != (#[trigger] after[b]).pair && after[a].pair != after[b].pair.reversed() by {
        if a < before.len() && b < before.len() {
            assert(before[a].pair != before[b].pair && before[a].pair
                != before[b].pair.reversed());
        } else if a < before.len() {
            assert(before[a].pair != pair && before[a].pair.reversed() != pair);
            assert(before[a].pair.reversed().reversed() == before[a].pair);
        } else {
            assert(before[b].pair != pair && before[b].pair.reversed() != pair);
        }
    }
}

/// Counts one more pair.
fn add_pair(votes: &mut Vec<RxTxPairVote>, pair: RxTxPair, Ghost(pairs): Ghost<Seq<RxTxPair>>)
    requires
        count_pairs(old(votes)@, pairs),
        pairs.len() < u128::MAX,
    ensures
        count_pairs(final(votes)@, pairs.push(pair)),
{
    let ghost before = votes@;
    let mut i: usize = 0;
    while i < votes.len()
        invariant
            votes@ == before,
            count_pairs(before, pairs),
            pairs.len() < u128::MAX,
            i <= before.len(),
            forall|j: int| 0 <= j < i ==> (#[trigger] before[j]).pair != pair,
        decreases before.len() - i,
    {
        if votes[i].pair == pair {
            proof {
                assert(counts(before[i as int], pairs));
                lemma_count_of(pairs, pair);
            }
            let vote = RxTxPairVote {
                pair: votes[i].pair,
                reverse_pair: votes[i].reverse_pair,
                num_votes: votes[i].num_votes + 1,
                num_reverse_votes: votes[i].num_reverse_votes,
            };
            votes.set(i, vote);
            proof {
                lemma_vote_raised(before, votes@, pairs, pair, i as int);
            }
            return;
        }
        i += 1;
    }
    let mut i: usize = 0;
    while i < votes.len()
        invariant
            votes@ == before,
            count_pairs(before, pairs),
            pairs.len() < u128::MAX,
            i <= before.len(),
            forall|j: int| 0 <= j < before.len() ==> (#[trigger] before[j]).pair != pair,
            forall|j: int| 0 <= j < i ==> (#[trigger] before[j]).pair.reversed() != pair,
        decreases before.len() - i,
    {
        assert(counts(before[i as int], pairs));
        if votes[i].reverse_pair == pair {
            proof {
                lemma_count_of(pairs, pair);
            }
            let vote = RxTxPairVote {
                pair: votes[i].pair,
                reverse_pair: votes[i].reverse_pair,
                num_votes: votes[i].num_votes,
                num_reverse_votes: votes[i].num_reverse_votes + 1,
            };
            votes.set(i, vote);
            proof {
                lemma_vote_raised(before, votes@, pairs, pair, i as int);
            }
            return;
        }
        i += 1;
    }
    let vote = RxTxPairVote {
        pair,
        reverse_pair: pair.create_reverse(),
        num_votes: 1,
        num_reverse_votes: 0,
    };
    votes.push(vote);
    proof {
        lemma_vote_added(before, vote, pairs, pair);
    }
}

/// Finds the registers that send, by how often each pair was found in which roles.
pub fn extract_tx_registers(snippets: &[DmaAnalysisSnippet]) -> (res: FxHashSet<MmioAddress>)
    ensures
        res@ == senders(all_pairs(snippet_views(snippets@))),
{
    let ghost lists = snippet_views(snippets@).map_values(|s: SnippetModel| s.rx_tx_pairs);
    let ghost mut pairs = Seq::<RxTxPair>::empty();
    let mut votes: Vec<RxTxPairVote> = Vec::new();
    let mut i: usize = 0;
    assert(pairs =~= joined(lists.take(0)));
    while i < snippets.len()
        invariant
            lists == snippet_views(snippets@).map_values(|s: SnippetModel| s.rx_tx_pairs),
            i <= snippets@.len(),
            pairs == joined(lists.take(i as int)),
            pairs.len() <= i * usize::MAX,
            count_pairs(votes@, pairs),
        decreases snippets.len() - i,
    {
        let list = &snippets[i].rx_tx_pairs;
        let ghost before = pairs;
        let mut j: usize = 0;
        assert(lists[i as int] == list@);
        assert(before + list@.take(0) =~= before);
        while j < list.len()
            invariant
                i < usize::MAX,
                j <= list@.len(),
                before.len() <= i * usize::MAX,
                pairs == before + list@.take(j as int),
                count_pairs(votes@, pairs),
            decreases list.len() - j,
        {
            assert(i * usize::MAX + j < u128::MAX) by (nonlinear_arith)
                requires
                    0 <= i < usize::MAX,
                    0 <= j < usize::MAX,
                    usize::MAX <= 0xffff_ffff_ffff_ffff,
            ;
            add_pair(&mut votes, list[j], Ghost(pairs));
            proof {
                pairs = pairs.push(list@[j as int]);
                assert(pairs =~= before + list@.take(j + 1));
            }
            j += 1;
        }
        proof {
            assert(list@.take(j as int) =~= list@);
            assert(lists.take(i + 1).drop_last() =~= lists.take(i as int));
            assert(lists.take(i + 1).last() == list@);
            assert((i + 1) * usize::MAX == i * usize::MAX + usize::MAX) by (nonlinear_arith);
        }
        i += 1;
    }
    assert(lists.take(i as int) =~= lists);
    let mut res: FxHashSet<MmioAddress> = FxHashSet::default();
    let mut k: usize = 0;
    while k < votes.len()
        invariant
            count_pairs(votes@, pairs),
            k <= votes@.len(),
            forall|r: MmioAddress| #[trigger]
                res@.contains(r) <==> exists|l: int|
                    0 <= l < k && sender_of(pairs, (#[trigger] votes@[l]).pair) == r,
        decreases votes.len() - k,
    {
        assert(counts(votes@[k as int], pairs));
        let vote = &votes[k];
        let ghost before = res@;
        let tx_reg = if vote.num_votes > vote.num_reverse_votes {
            vote.pair.tx_reg
        } else {
            vote.reverse_pair.tx_reg
        };
        set_insert(&mut res, tx_reg);
        assert forall|r: MmioAddress| #[trigger] res@.contains(r) <==> exists|l: int|
            0 <= l < k + 1 && sender_of(pairs, (#[trigger] votes@[l]).pair) == r by {
            if before.contains(r) {
                let l = choose|l: int|
                    0 <= l < k && sender_of(pairs, (#[trigger] votes@[l]).pair) == r;
                assert(sender_of(pairs, votes@[l].pair) == r);
            }
            if r == tx_reg {
                assert(sender_of(pairs, votes@[k as int].pair) == r);
            }
        }
        k += 1;
    }
    proof {
        assert forall|r: MmioAddress| res@.contains(r) <==> senders(pairs).contains(r) by {
            if res@.contains(r) {
                let l = choose|l: int|
                    0 <= l < votes@.len() && sender_of(pairs, (#[trigger] votes@[l]).pair) == r;
                assert(counts(votes@[l], pairs));
                let i = choose|i: int| #[trigger] is_first(pairs, i) && pairs[i] == votes@[l].pair;
                assert(is_first(pairs, i) && sender_of(pairs, pairs[i]) == r);
            }
            if senders(pairs).contains(r) {
                let i = choose|i: int| #[trigger]
                    is_first(pairs, i) && sender_of(pairs, pairs[i]) == r;
                let l = choose|l: int|
                    0 <= l < votes@.len() && (#[trigger] votes@[l]).pair == pairs[i];
                assert(sender_of(pairs, votes@[l].pair) == r);
            }
        }
        assert(res@ =~= senders(pairs));
    }
    res
}

} // verus!
