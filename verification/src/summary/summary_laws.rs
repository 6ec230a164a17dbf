//! Which registers a configuration is made for.

use super::configs::{describe_all, describe_in_order, lists_heads};
use super::descriptors::{chosen_layouts, layout_from, linked_choice, populated_from, table_choice};
use super::layout::DescriptorLayoutCandidate;
use super::senders::{all_pairs, senders};
use super::summarize::{eligible, merged_types, summarizes_with, without_votes, Choices};
use super::types::common_type;
use super::vote_laws::{how_many, lemma_common_type, lemma_tally_counts, of_register, of_size};
use super::votes::{are_most_voted, has_votes, is_most_voted, joined, tally};
use crate::config_laws::lemma_listed_addresses;
use crate::common::{MmioAddress, RamAddress};
use crate::dma_analysis::types::{BufModel, SizeRange};
use crate::dma_analysis::merge::PointerModel;
use crate::dma_config::{
    lists_sizes, points_to_buffer, DmaDescriptorField, DmaDescriptorHead, DmaDescriptorPointer,
    SymbolizedValue,
};
use crate::dma_snippet::SnippetModel;
use crate::tables::enumerates;
use vstd::prelude::*;

verus! {

/// Some snippet shows that the register does not hold pointers.
pub open spec fn is_ruled_out(snippets: Seq<SnippetModel>, r: MmioAddress) -> bool {
    exists|i: int|
        0 <= i < snippets.len() && (
        #[trigger] snippets[i]).mmio_pointer_counterexamples.contains_key(r)
}

/// The register holds a misaligned pointer in some snippet.
pub open spec fn is_misaligned(snippets: Seq<SnippetModel>, r: MmioAddress) -> bool {
    exists|i: int|
        0 <= i < snippets.len() && (#[trigger] snippets[i]).misaligned_mmio_writes.contains_key(r)
}

/// What lies behind a register is looked at where some snippet has a guess at it, unless a snippet
/// shows that the register does not hold pointers, it holds a misaligned pointer in one, or it
/// sends.
pub proof fn lemma_types_looked_at(snippets: Seq<SnippetModel>, r: MmioAddress)
    ensures
        merged_types(snippets).contains_key(r) <==> {
            &&& exists|i: int|
                0 <= i < snippets.len() && (
                #[trigger] snippets[i]).guessed_type_by_mmio_addr.contains_key(r)
            &&& !is_ruled_out(snippets, r)
            &&& !is_misaligned(snippets, r)
            &&& !senders(all_pairs(snippets)).contains(r)
        },
        merged_types(snippets).contains_key(r) ==> Some(merged_types(snippets)[r]) == common_type(
            snippets,
            r,
        ),
{
    lemma_common_type(snippets, r);
}

/// The register has so many buffers on the ballots.
pub open spec fn times_detected(ballots: Seq<Seq<BufModel>>, r: MmioAddress) -> nat {
    how_many(joined(ballots), of_register(r))
}

/// So many buffers of the register on the ballots have the size at the address.
pub open spec fn times_sized(
    ballots: Seq<Seq<BufModel>>,
    r: MmioAddress,
    a: RamAddress,
    size: SizeRange,
) -> nat {
    how_many(joined(ballots), of_size(r, a, size))
}

/// The register may be the one that points to buffers directly: it has buffers, no snippet shows
/// that it does not hold pointers, it does not send, and it is not taken to point to descriptors.
pub open spec fn may_be_direct(
    snippets: Seq<SnippetModel>,
    choices: Choices,
    r: MmioAddress,
) -> bool {
    let types = merged_types(snippets);
    &&& times_detected(choices.ballots, r) > 0
    &&& !is_ruled_out(snippets, r)
    &&& !senders(all_pairs(snippets)).contains(r)
    &&& !choices.pointer_tables.contains_key(r)
    &&& !chosen_layouts(types, linked_choice()).contains_key(r)
    &&& !chosen_layouts(types, table_choice()).contains_key(r)
}

proof fn lemma_eligible(snippets: Seq<SnippetModel>, choices: Choices, r: MmioAddress)
    ensures
        ({
            let types = merged_types(snippets);
            let votes = tally(joined(choices.ballots), without_votes(snippets));
            let described = choices.pointer_tables.dom().union(
                chosen_layouts(types, linked_choice()).dom(),
            ).union(chosen_layouts(types, table_choice()).dom());
            &&& eligible(votes, described, r) <==> may_be_direct(
                snippets,
                choices,
                r,
            )
            &&& may_be_direct(snippets, choices, r) ==> votes[r].num_votes == times_detected(
                choices.ballots,
                r,
            )
        }),
{
    lemma_tally_counts(
        joined(choices.ballots),
        without_votes(snippets),
        r,
        0,
        SizeRange { min: 0, max: 0 },
    );
}

/// One register at most is taken to point to buffers directly: there is one wherever one may be, and
/// no other that may be was detected more often. The sizes that are known for its buffers are those
/// that were found most often at their addresses, and every address where one was found has one.
pub proof fn lemma_direct_head(
    snippets: Seq<SnippetModel>,
    choices: Choices,
    heads: Seq<DmaDescriptorHead>,
    known_sizes: Seq<(SymbolizedValue, SizeRange)>,
)
    requires
        summarizes_with(snippets, choices, heads, known_sizes),
    ensures
        choices.direct_heads.len() == 0 <==> forall|r: MmioAddress|
            !#[trigger] may_be_direct(snippets, choices, r),
        choices.direct_heads.len() == 0 ==> known_sizes.len() == 0,
        choices.direct_heads.len() > 0 ==> {
            let r = choices.direct_heads[0].addr;
            &&& choices.direct_heads.len() == 1
            &&& heads.len() > 0 && heads[0] == choices.direct_heads[0]
            &&& may_be_direct(snippets, choices, r)
            &&& forall|q: MmioAddress| #[trigger]
                may_be_direct(snippets, choices, q) ==> times_detected(choices.ballots, q)
                    <= times_detected(choices.ballots, r)
            &&& forall|i: int|
                0 <= i < known_sizes.len() ==> ((#[trigger] known_sizes[i]).0 matches
                    SymbolizedValue::Address(a) && times_sized(
                    choices.ballots,
                    r,
                    a,
                    known_sizes[i].1,
                ) > 0 && forall|other: SizeRange|
                    #[trigger] times_sized(choices.ballots, r, a, other) <= times_sized(
                        choices.ballots,
                        r,
                        a,
                        known_sizes[i].1,
                    ))
            &&& forall|a: RamAddress, size: SizeRange| #[trigger]
                times_sized(choices.ballots, r, a, size) > 0 ==> exists|i: int|
                    0 <= i < known_sizes.len() && (#[trigger] known_sizes[i]).0
                        == SymbolizedValue::Address(a)
        },
{
    let types = merged_types(snippets);
    let votes = tally(joined(choices.ballots), without_votes(snippets));
    let described = choices.pointer_tables.dom().union(
        chosen_layouts(types, linked_choice()).dom(),
    ).union(chosen_layouts(types, table_choice()).dom());
    assert forall|r: MmioAddress| #[trigger]
        may_be_direct(snippets, choices, r) <==> eligible(
        votes,
        described,
        r,
    ) by {
        lemma_eligible(snippets, choices, r);
    }
    if exists|r: MmioAddress| #[trigger] eligible(votes, described, r) {
        let r = choose|r: MmioAddress| #[trigger] eligible(votes, described, r);
        assert(may_be_direct(snippets, choices, r));
    }
    if choices.direct_heads.len() > 0 {
        let r = choices.direct_heads[0].addr;
        lemma_eligible(snippets, choices, r);
        assert forall|q: MmioAddress| #[trigger]
            may_be_direct(snippets, choices, q) implies times_detected(choices.ballots, q)
            <= times_detected(choices.ballots, r) by {
            lemma_eligible(snippets, choices, q);
        }
        let size_votes = votes[r].size_votes;
        let sizes = choose|sizes: Map<RamAddress, SizeRange>| #[trigger]
            are_most_voted(size_votes, sizes) && points_to_buffer(
                choices.direct_heads[0].descriptor,
                sizes.dom(),
            ) && lists_sizes(known_sizes, sizes);
        let order = choose|order: Seq<RamAddress>| #[trigger]
            enumerates(order, sizes.dom()) && known_sizes == order.map_values(
                |a: RamAddress| (SymbolizedValue::Address(a), sizes[a]),
            );
        assert forall|a: RamAddress, size: SizeRange|
            size_votes.contains_key((a, size)) <==> #[trigger] times_sized(
                choices.ballots,
                r,
                a,
                size,
            ) > 0 by {
            lemma_tally_counts(joined(choices.ballots), without_votes(snippets), r, a, size);
        }
        assert forall|a: RamAddress, size: SizeRange|
            size_votes.contains_key((a, size)) implies size_votes[(a, size)]
            == #[trigger] times_sized(choices.ballots, r, a, size) by {
            lemma_tally_counts(joined(choices.ballots), without_votes(snippets), r, a, size);
        }
        assert forall|i: int| 0 <= i < known_sizes.len() implies ((
        #[trigger] known_sizes[i]).0 matches SymbolizedValue::Address(a) && times_sized(
            choices.ballots,
            r,
            a,
            known_sizes[i].1,
        ) > 0 && forall|other: SizeRange|
            #[trigger] times_sized(choices.ballots, r, a, other) <= times_sized(
                choices.ballots,
                r,
                a,
                known_sizes[i].1,
            )) by {
            let a = order[i];
            assert(order.to_set().contains(a));
            assert(is_most_voted(size_votes, a, sizes[a]));
            assert(known_sizes[i] == (SymbolizedValue::Address(a), sizes[a]));
            assert(size_votes.contains_key((a, sizes[a])));
            assert forall|other: SizeRange| #[trigger]
                times_sized(choices.ballots, r, a, other) <= times_sized(
                choices.ballots,
                r,
                a,
                sizes[a],
            ) by {
                if size_votes.contains_key((a, other)) {
                    assert(size_votes[(a, other)] <= size_votes[(a, sizes[a])]);
                }
            }
        }
        assert forall|a: RamAddress, size: SizeRange| #[trigger]
            times_sized(choices.ballots, r, a, size) > 0 implies exists|i: int|
            0 <= i < known_sizes.len() && (#[trigger] known_sizes[i]).0
                == SymbolizedValue::Address(a) by {
            assert(size_votes.contains_key((a, size)));
            assert(has_votes(size_votes, a));
            assert(sizes.contains_key(a));
            assert(order.to_set().contains(a));
            let i = choose|i: int| 0 <= i < order.len() && order[i] == a;
            assert(known_sizes[i].0 == SymbolizedValue::Address(a));
        }
    }
}

/// The heads that are listed are those of the registers with a configuration, one for each.
proof fn lemma_listed_heads(
    heads: Seq<DmaDescriptorHead>,
    configs: Map<MmioAddress, DmaDescriptorPointer>,
)
    requires
        lists_heads(heads, configs),
    ensures
        forall|i: int|
            0 <= i < heads.len() ==> configs.contains_key((#[trigger] heads[i]).addr)
                && heads[i].descriptor == configs[heads[i].addr],
        forall|r: MmioAddress| #[trigger]
            configs.contains_key(r) ==> exists|i: int|
                0 <= i < heads.len() && (#[trigger] heads[i]).addr == r,
        forall|i: int, j: int|
            0 <= i < j < heads.len() ==> (#[trigger] heads[i]).addr != (#[trigger] heads[j]).addr,
{
    let order = choose|order: Seq<MmioAddress>| #[trigger]
        enumerates(order, configs.dom()) && heads == order.map_values(
            |r: MmioAddress| DmaDescriptorHead { addr: r, descriptor: configs[r] },
        );
    assert forall|i: int| 0 <= i < heads.len() implies configs.contains_key(
        (#[trigger] heads[i]).addr,
    ) && heads[i].descriptor == configs[heads[i].addr] by {
        assert(order.to_set().contains(order[i]));
        assert(configs.dom().contains(order[i]));
    }
    assert forall|r: MmioAddress| #[trigger] configs.contains_key(r) implies exists|i: int|
        0 <= i < heads.len() && (#[trigger] heads[i]).addr == r by {
        assert(order.to_set().contains(r));
        let i = choose|i: int| 0 <= i < order.len() && order[i] == r;
        assert(heads[i].addr == r);
    }
}

/// One of the heads is that of the register.
pub open spec fn has_head(heads: Seq<DmaDescriptorHead>, r: MmioAddress) -> bool {
    exists|i: int| 0 <= i < heads.len() && (#[trigger] heads[i]).addr == r
}

/// Every register with a layout of linked descriptors has a head among those of linked descriptors,
/// and every other one with a layout of a table of descriptors has one among those of tables; every
/// one with a table of pointers has one among those of tables of pointers. There are no others. All
/// heads come in this order: the direct one, then tables, linked descriptors, tables of pointers.
pub proof fn lemma_heads_exactly(
    snippets: Seq<SnippetModel>,
    choices: Choices,
    heads: Seq<DmaDescriptorHead>,
    known_sizes: Seq<(SymbolizedValue, SizeRange)>,
    r: MmioAddress,
)
    requires
        summarizes_with(snippets, choices, heads, known_sizes),
    ensures
        ({
            let types = merged_types(snippets);
            let linked = layout_from(types[r], 0);
            let table = layout_from(types[r], populated_from(types[r].to, 0));
            let has_linked = types.contains_key(r) && linked is Some && linked->0 is Some;
            let has_table = types.contains_key(r) && table is Some && table->0 is Some;
            &&& has_head(choices.linked_heads, r) <==> has_linked
            &&& has_head(choices.table_heads, r) <==> has_table && !has_linked
            &&& has_head(choices.pointer_table_heads, r) <==> choices.pointer_tables.contains_key(r)
        }),
        heads == choices.direct_heads + choices.table_heads + choices.linked_heads
            + choices.pointer_table_heads,
{
    let types = merged_types(snippets);
    let linked = chosen_layouts(types, linked_choice());
    let tables = chosen_layouts(types, table_choice());
    lemma_listed_heads(choices.linked_heads, choices.linked_configs);
    lemma_listed_heads(
        choices.table_heads,
        choices.table_configs.remove_keys(linked.dom()),
    );
    lemma_listed_heads(choices.pointer_table_heads, choices.pointer_table_configs);
    lemma_described(choices.linked_configs, types, linked);
    lemma_described(choices.table_configs, types, tables);
    assert(choices.pointer_table_configs.dom().contains(r)
        <==> choices.pointer_tables.dom().contains(r));
    assert(linked_choice()(types[r]) == layout_from(types[r], 0));
    assert(table_choice()(types[r]) == layout_from(types[r], populated_from(types[r].to, 0)));
    assert(choices.linked_configs.contains_key(r) <==> linked.contains_key(r));
    assert(choices.table_configs.remove_keys(linked.dom()).contains_key(r) <==> tables.contains_key(
        r,
    ) && !linked.contains_key(r));
}

proof fn lemma_described(
    configs: Map<MmioAddress, DmaDescriptorPointer>,
    types: Map<MmioAddress, PointerModel>,
    layouts: Map<MmioAddress, DescriptorLayoutCandidate>,
)
    requires
        describe_all(configs, types, layouts),
    ensures
        forall|r: MmioAddress| #[trigger] configs.contains_key(r) <==> layouts.contains_key(r),
{
    let order = choose|order: Seq<MmioAddress>| #[trigger]
        enumerates(order, layouts.dom()) && describe_in_order(configs, types, layouts, order);
    assert forall|r: MmioAddress| #[trigger]
        configs.contains_key(r) <==> layouts.contains_key(r) by {
        assert(configs.dom().contains(r) <==> layouts.dom().contains(r));
    }
}

/// The head of the register that points to buffers directly is one to a plain buffer, at exactly the
/// addresses whose sizes are known.
pub proof fn lemma_direct_descriptor(
    snippets: Seq<SnippetModel>,
    choices: Choices,
    heads: Seq<DmaDescriptorHead>,
    known_sizes: Seq<(SymbolizedValue, SizeRange)>,
    a: RamAddress,
)
    requires
        summarizes_with(snippets, choices, heads, known_sizes),
        choices.direct_heads.len() > 0,
    ensures
        ({
            let ptr = choices.direct_heads[0].descriptor;
            &&& !ptr.is_buf_end_ptr
            &&& *ptr.to matches DmaDescriptorField::Buffer(buffer) && buffer.known_sizes@.len() == 0
            &&& ptr.known_values@.contains(SymbolizedValue::Address(a)) <==> exists|i: int|
                0 <= i < known_sizes.len() && (#[trigger] known_sizes[i]).0
                    == SymbolizedValue::Address(a)
        }),
{
    let types = merged_types(snippets);
    let votes = tally(joined(choices.ballots), without_votes(snippets));
    let ptr = choices.direct_heads[0].descriptor;
    let r = choices.direct_heads[0].addr;
    let sizes = choose|sizes: Map<RamAddress, SizeRange>| #[trigger]
        are_most_voted(votes[r].size_votes, sizes) && points_to_buffer(
            ptr,
            sizes.dom(),
        ) && lists_sizes(known_sizes, sizes);
    lemma_listed_addresses(ptr.known_values@, sizes.dom());
    let order = choose|order: Seq<RamAddress>| #[trigger]
        enumerates(order, sizes.dom()) && known_sizes == order.map_values(
            |a: RamAddress| (SymbolizedValue::Address(a), sizes[a]),
        );
    assert(order.to_set().contains(a) <==> sizes.dom().contains(a));
    if sizes.dom().contains(a) {
        let i = choose|i: int| 0 <= i < order.len() && order[i] == a;
        assert(known_sizes[i].0 == SymbolizedValue::Address(a));
    }
    if exists|i: int|
        0 <= i < known_sizes.len() && (#[trigger] known_sizes[i]).0 == SymbolizedValue::Address(a) {
        let i = choose|i: int|
            0 <= i < known_sizes.len() && (#[trigger] known_sizes[i]).0 == SymbolizedValue::Address(
                a,
            );
        assert(order[i] == a);
    }
}

} // verus!
