//! How votes are counted: for registers, for the sizes of buffers, and for the roles of registers in
//! pairs.

use super::senders::{count_of, is_first, sender_of, senders};
use super::types::common_type;
use super::votes::tally;
use crate::common::{MmioAddress, RamAddress};
use crate::dma_analysis::type_laws::lemma_merge_keeps;
use crate::dma_analysis::types::{BufModel, RxTxPair, SizeRange};
use crate::dma_snippet::SnippetModel;
use crate::scan::{first_from, lemma_first_from};
use vstd::prelude::*;

verus! {

/// How many elements of the list satisfy `p`.
pub open spec fn how_many<T>(s: Seq<T>, p: spec_fn(T) -> bool) -> nat {
    s.filter(p).len()
}

proof fn lemma_how_many<T>(s: Seq<T>, p: spec_fn(T) -> bool)
    ensures
        s.len() > 0 ==> how_many(s, p) == how_many(s.drop_last(), p) + if p(s.last()) {
            1nat
        } else {
            0
        },
        how_many(s, p) > 0 <==> exists|i: int| 0 <= i < s.len() && p(#[trigger] s[i]),
    decreases s.len(),
{
    reveal(Seq::filter);
    if s.len() > 0 {
        let rest = s.drop_last();
        lemma_how_many(rest, p);
        assert(s[s.len() - 1] == s.last());
        if how_many(rest, p) > 0 {
            let i = choose|i: int| 0 <= i < rest.len() && p(#[trigger] rest[i]);
            assert(p(s[i]));
        }
        if exists|i: int| 0 <= i < s.len() && p(#[trigger] s[i]) {
            let i = choose|i: int| 0 <= i < s.len() && p(#[trigger] s[i]);
            if i < rest.len() {
                assert(p(rest[i]));
            }
        }
    }
}

/// Buffers of the register.
pub open spec fn of_register(r: MmioAddress) -> spec_fn(BufModel) -> bool {
    |b: BufModel| b.mmio_address == r
}

/// Buffers of the register that have the size at the address.
pub open spec fn of_size(r: MmioAddress, a: RamAddress, size: SizeRange) -> spec_fn(
    BufModel,
) -> bool {
    |b: BufModel|
        b.mmio_address == r && b.known_sizes.contains_key(a) && b.known_sizes[a] == size
}

/// A register has votes where one of the buffers is its own and it is not skipped. It has as many as
/// it has buffers, and the first one is kept. A size at an address has as many votes as there are
/// buffers of the register with that size at that address, and is listed where there is one.
pub proof fn lemma_tally_counts(
    bufs: Seq<BufModel>,
    skipped: Set<MmioAddress>,
    r: MmioAddress,
    a: RamAddress,
    size: SizeRange,
)
    ensures
        ({
            let of_register = of_register(r);
            let of_size = of_size(r, a, size);
            let votes = tally(bufs, skipped);
            &&& votes.contains_key(r) <==> !skipped.contains(r) && how_many(bufs, of_register) > 0
            &&& votes.contains_key(r) ==> {
                &&& votes[r].num_votes == how_many(bufs, of_register)
                &&& votes[r].conflicts.len() == 0
                &&& votes[r].size_votes.contains_key((a, size)) <==> how_many(bufs, of_size) > 0
                &&& votes[r].size_votes.contains_key((a, size)) ==> votes[r].size_votes[(a, size)]
                    == how_many(bufs, of_size)
                &&& exists|i: int|
                    0 <= i < bufs.len() && (#[trigger] bufs[i]) == votes[r].buf && of_register(
                        bufs[i],
                    ) && forall|j: int| 0 <= j < i ==> !of_register(#[trigger] bufs[j])
            }
        }),
    decreases bufs.len(),
{
    let of_register = of_register(r);
    let of_size = of_size(r, a, size);
    lemma_how_many(bufs, of_register);
    lemma_how_many(bufs, of_size);
    if bufs.len() > 0 {
        let rest = bufs.drop_last();
        let n = rest.len() as int;
        lemma_tally_counts(rest, skipped, r, a, size);
        lemma_how_many(rest, of_register);
        lemma_how_many(rest, of_size);
        assert(bufs[n] == bufs.last());
        let before = tally(rest, skipped);
        let votes = tally(bufs, skipped);
        if before.contains_key(r) {
            let i = choose|i: int|
                0 <= i < rest.len() && (#[trigger] rest[i]) == before[r].buf && of_register(
                    rest[i],
                ) && forall|j: int| 0 <= j < i ==> !of_register(#[trigger] rest[j]);
            assert(bufs[i] == rest[i]);
            assert forall|j: int| 0 <= j < i implies !of_register(#[trigger] bufs[j]) by {
                assert(bufs[j] == rest[j]);
            }
        } else if votes.contains_key(r) {
            assert(bufs[n] == votes[r].buf);
            assert forall|j: int| 0 <= j < n implies !of_register(#[trigger] bufs[j]) by {
                assert(bufs[j] == rest[j]);
                assert(!of_register(rest[j]));
            }
        }
    }
}

/// Pairs that are the same.
pub open spec fn same_as(pair: RxTxPair) -> spec_fn(RxTxPair) -> bool {
    |p: RxTxPair| p == pair
}

proof fn lemma_count_of(pairs: Seq<RxTxPair>, pair: RxTxPair)
    ensures
        count_of(pairs, pair) == times_found(pairs, pair),
    decreases pairs.len(),
{
    lemma_how_many(pairs, same_as(pair));
    if pairs.len() > 0 {
        lemma_count_of(pairs.drop_last(), pair);
    }
}

/// How often the pair was found.
pub open spec fn times_found(pairs: Seq<RxTxPair>, pair: RxTxPair) -> nat {
    how_many(pairs, same_as(pair))
}

/// The pair with the two registers in each other's role.
pub open spec fn swapped(pair: RxTxPair) -> RxTxPair {
    RxTxPair { ram_addr: pair.ram_addr, rx_reg: pair.tx_reg, tx_reg: pair.rx_reg }
}

/// A register sends where it was found to send in a pair more often than to receive in it.
pub proof fn lemma_majority_sends(pairs: Seq<RxTxPair>, pair: RxTxPair)
    requires
        pair.rx_reg != pair.tx_reg,
        times_found(pairs, pair) > times_found(pairs, swapped(pair)),
    ensures
        senders(pairs).contains(pair.tx_reg),
{
    let either = |i: int| pairs[i] == pair || pairs[i] == swapped(pair);
    lemma_count_of(pairs, pair);
    lemma_count_of(pairs, swapped(pair));
    lemma_how_many(pairs, same_as(pair));
    let k = choose|k: int| 0 <= k < pairs.len() && same_as(pair)(#[trigger] pairs[k]);
    lemma_first_from(0, pairs.len() as int, either);
    assert(either(k));
    let i = first_from(0, pairs.len() as int, either)->0;
    assert(either(i));
    assert(is_first(pairs, i)) by {
        assert forall|j: int| 0 <= j < i implies (#[trigger] pairs[j]) != pairs[i] && pairs[j]
            != pairs[i].reversed() by {
            assert(!either(j));
        }
    }
    assert(sender_of(pairs, pairs[i]) == pair.tx_reg);
}

/// The pair at `i` was not found before in either role of its registers, and shows that `r` sends:
/// by how often it was found in which roles, and by the other role where that is a draw.
pub open spec fn shows_sender(pairs: Seq<RxTxPair>, i: int, r: MmioAddress) -> bool {
    let pair = pairs[i];
    &&& 0 <= i < pairs.len()
    &&& forall|j: int| 0 <= j < i ==> (#[trigger] pairs[j]) != pair && pairs[j] != swapped(pair)
    &&& {
        ||| pair.tx_reg == r && (pair.rx_reg == pair.tx_reg || times_found(pairs, pair)
            > times_found(pairs, swapped(pair)))
        ||| pair.rx_reg == r && times_found(pairs, pair) <= times_found(pairs, swapped(pair))
    }
}

/// The registers that send are those that some pair shows to send, when it is first found.
pub proof fn lemma_senders_exactly(pairs: Seq<RxTxPair>, r: MmioAddress)
    ensures
        senders(pairs).contains(r) <==> exists|i: int| #[trigger] shows_sender(pairs, i, r),
{
    if senders(pairs).contains(r) {
        let i = choose|i: int| #[trigger] is_first(pairs, i) && sender_of(pairs, pairs[i]) == r;
        let pair = pairs[i];
        lemma_count_of(pairs, pair);
        lemma_count_of(pairs, swapped(pair));
        assert(pair.reversed() == swapped(pair));
        assert(shows_sender(pairs, i, r));
    }
    if exists|i: int| #[trigger] shows_sender(pairs, i, r) {
        let i = choose|i: int| #[trigger] shows_sender(pairs, i, r);
        let pair = pairs[i];
        lemma_count_of(pairs, pair);
        lemma_count_of(pairs, swapped(pair));
        assert(pair.reversed() == swapped(pair));
        assert(is_first(pairs, i));
        assert(sender_of(pairs, pairs[i]) == r);
    }
}

/// The guesses of the snippets at what lies behind a register are merged: there is one where a
/// snippet has one, and it has the known values of all of them.
pub proof fn lemma_common_type(snippets: Seq<SnippetModel>, r: MmioAddress)
    ensures
        common_type(snippets, r) is Some <==> exists|i: int|
            0 <= i < snippets.len() && (
            #[trigger] snippets[i]).guessed_type_by_mmio_addr.contains_key(r),
        common_type(snippets, r) matches Some(guess) ==> forall|v: RamAddress| #[trigger]
            guess.known_values.contains(v) <==> exists|i: int|
                0 <= i < snippets.len() && (
                #[trigger] snippets[i]).guessed_type_by_mmio_addr.contains_key(r)
                    && snippets[i].guessed_type_by_mmio_addr[r].known_values.contains(v),
    decreases snippets.len(),
{
    if snippets.len() > 0 {
        let rest = snippets.drop_last();
        let n = rest.len() as int;
        lemma_common_type(rest, r);
        assert(snippets[n] == snippets.last());
        let types = snippets.last().guessed_type_by_mmio_addr;
        if let Some(before) = common_type(rest, r) {
            if types.contains_key(r) {
                lemma_merge_keeps(before, types[r]);
            }
            let i = choose|i: int|
                0 <= i < rest.len() && (
                #[trigger] rest[i]).guessed_type_by_mmio_addr.contains_key(r);
            assert(snippets[i] == rest[i]);
        }
        if exists|i: int|
            0 <= i < snippets.len() && (
            #[trigger] snippets[i]).guessed_type_by_mmio_addr.contains_key(r) {
            let i = choose|i: int|
                0 <= i < snippets.len() && (
                #[trigger] snippets[i]).guessed_type_by_mmio_addr.contains_key(r);
            if i < n {
                assert(rest[i] == snippets[i]);
            }
        }
        if let Some(guess) = common_type(snippets, r) {
            assert forall|v: RamAddress| #[trigger]
                guess.known_values.contains(v) <==> exists|i: int|
                0 <= i < snippets.len() && (
                #[trigger] snippets[i]).guessed_type_by_mmio_addr.contains_key(r)
                    && snippets[i].guessed_type_by_mmio_addr[r].known_values.contains(v) by {
                if common_type(rest, r) is Some && common_type(rest, r)->0.known_values.contains(
                    v,
                ) {
                    let i = choose|i: int|
                        0 <= i < rest.len() && (
                        #[trigger] rest[i]).guessed_type_by_mmio_addr.contains_key(r)
                            && rest[i].guessed_type_by_mmio_addr[r].known_values.contains(v);
                    assert(snippets[i] == rest[i]);
                }
                if exists|i: int|
                    0 <= i < snippets.len() && (
                    #[trigger] snippets[i]).guessed_type_by_mmio_addr.contains_key(r)
                        && snippets[i].guessed_type_by_mmio_addr[r].known_values.contains(v) {
                    let i = choose|i: int|
                        0 <= i < snippets.len() && (
                        #[trigger] snippets[i]).guessed_type_by_mmio_addr.contains_key(r)
                            && snippets[i].guessed_type_by_mmio_addr[r].known_values.contains(v);
                    if i < n {
                        assert(rest[i] == snippets[i]);
                    }
                }
            }
        }
    }
}

} // verus!
