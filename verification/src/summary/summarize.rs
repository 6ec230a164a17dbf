//! The configuration that all snippets together lead to.

use super::configs::{
    add_heads, all_describable, all_tables_describable, describe_all, describe_descriptors,
    describe_in_order, describe_pointer_tables, describe_tables, known_before, lists_heads,
};
use super::descriptors::{
    all_chosen, all_laid_out, are_pointer_tables, chosen_layouts, linked_choice,
    synthesize_descriptor_pointer_table, synthesize_ram_based_descriptor_table,
    synthesize_ram_based_linked_descriptors, table_choice, table_views,
};
use super::layout::DescriptorLayoutCandidate;
use super::ranking::most_voted_register;
use super::senders::{all_pairs, extract_tx_registers, senders};
use super::types::{
    all_types_mergeable, common_types, extract_misaligned_pointer_regs,
    extract_pointer_counterexamples, gather_common_types, misaligned_registers,
    non_pointer_registers,
};
use super::votes::{
    all_votes_ok, are_ballots, are_most_voted, extract_buf_votes_from_fuzzware_snippets, joined,
    lemma_tally_bound, tally, vote_views, BufVoteEntry, VoteModel,
};
use crate::common::{MmioAddress, RamAddress};
use crate::dma_analysis::merge::PointerModel;
use crate::dma_analysis::types::{BufModel, SizeRange};
use crate::dma_config::{
    distinct_values, lemma_describes_table_wf, lemma_describes_wf, lemma_first_sizes,
    lemma_lists_sizes_distinct, lists_sizes, points_to_buffer, with_sizes, DmaConfig,
    DmaDescriptorHead, DmaDescriptorPointer, SymbolizedValue,
};
use crate::dma_snippet::{snippet_views, type_views, DmaAnalysisSnippet, SnippetModel};
use crate::tables::{enumerates, map_contains, map_get, map_keys};
use fxhash::FxHashMap;
use vstd::prelude::*;

verus! {

broadcast use vstd::std_specs::hash::group_hash_axioms;

/// The registers that send.
pub open spec fn sending_registers(snippets: Seq<SnippetModel>) -> Set<MmioAddress> {
    senders(all_pairs(snippets))
}

/// The registers whose buffers do not count: those that do not hold pointers, and those that send.
pub open spec fn without_votes(snippets: Seq<SnippetModel>) -> Set<MmioAddress> {
    non_pointer_registers(snippets).union(sending_registers(snippets))
}

/// The registers that are not looked behind: those that do not hold pointers, that hold misaligned
/// ones, and that send.
pub open spec fn without_types(snippets: Seq<SnippetModel>) -> Set<MmioAddress> {
    non_pointer_registers(snippets).union(misaligned_registers(snippets)).union(
        sending_registers(snippets),
    )
}

/// The merged guesses at what lies behind the registers.
pub open spec fn merged_types(snippets: Seq<SnippetModel>) -> Map<MmioAddress, PointerModel> {
    common_types(snippets, without_types(snippets))
}

/// The register has votes without a conflict, and points to no descriptor.
pub open spec fn eligible(
    votes: Map<MmioAddress, VoteModel>,
    described: Set<MmioAddress>,
    r: MmioAddress,
) -> bool {
    votes.contains_key(r) && votes[r].conflicts.len() == 0 && !described.contains(r)
}

/// The register is eligible, and no eligible one has more votes.
pub open spec fn is_elected(
    votes: Map<MmioAddress, VoteModel>,
    described: Set<MmioAddress>,
    r: MmioAddress,
) -> bool {
    &&& eligible(votes, described, r)
    &&& forall|q: MmioAddress| #[trigger]
        eligible(votes, described, q) ==> votes[q].num_votes <= votes[r].num_votes
}

/// The head of a register with the most votes, and the sizes of its buffers with the most votes. No
/// head and no sizes where no register is eligible.
pub open spec fn direct_part(
    votes: Map<MmioAddress, VoteModel>,
    described: Set<MmioAddress>,
    heads: Seq<DmaDescriptorHead>,
    known_sizes: Seq<(SymbolizedValue, SizeRange)>,
) -> bool {
    if exists|r: MmioAddress| #[trigger] eligible(votes, described, r) {
        &&& heads.len() == 1
        &&& is_elected(votes, described, heads[0].addr)
        &&& exists|sizes: Map<RamAddress, SizeRange>| #[trigger]
            are_most_voted(votes[heads[0].addr].size_votes, sizes) && points_to_buffer(
                heads[0].descriptor,
                sizes.dom(),
            ) && lists_sizes(known_sizes, sizes)
    } else {
        heads.len() == 0 && known_sizes.len() == 0
    }
}

/// What is left open, and the parts that a configuration is made of: the buffers in the order in
/// which they are counted, the tables of pointers to descriptors, the descriptions of what
/// registers point to, and the heads.
pub struct Choices {
    pub ballots: Seq<Seq<BufModel>>,
    pub pointer_tables: Map<MmioAddress, Map<usize, DescriptorLayoutCandidate>>,
    pub table_configs: Map<MmioAddress, DmaDescriptorPointer>,
    pub linked_configs: Map<MmioAddress, DmaDescriptorPointer>,
    pub pointer_table_configs: Map<MmioAddress, DmaDescriptorPointer>,
    pub direct_heads: Seq<DmaDescriptorHead>,
    pub table_heads: Seq<DmaDescriptorHead>,
    pub linked_heads: Seq<DmaDescriptorHead>,
    pub pointer_table_heads: Seq<DmaDescriptorHead>,
}

/// The heads and the sizes are those that the snippets lead to, with the given choices: first at
/// most one register that points to buffers directly, then those that point to tables of
/// descriptors, to linked descriptors, and to tables of pointers to descriptors. A register that
/// may point to linked descriptors is not taken to point to a table of them.
pub open spec fn summarizes_with(
    snippets: Seq<SnippetModel>,
    choices: Choices,
    heads: Seq<DmaDescriptorHead>,
    known_sizes: Seq<(SymbolizedValue, SizeRange)>,
) -> bool {
    let types = merged_types(snippets);
    let linked = chosen_layouts(types, linked_choice());
    let tables = chosen_layouts(types, table_choice());
    let votes = tally(joined(choices.ballots), without_votes(snippets));
    let described = choices.pointer_tables.dom().union(linked.dom()).union(tables.dom());
    &&& are_ballots(choices.ballots, snippets)
    &&& are_pointer_tables(types, choices.pointer_tables)
    &&& describe_all(choices.table_configs, types, tables)
    &&& describe_all(choices.linked_configs, types, linked)
    &&& describe_tables(choices.pointer_table_configs, types, choices.pointer_tables)
    &&& direct_part(votes, described, choices.direct_heads, known_sizes)
    &&& lists_heads(choices.table_heads, choices.table_configs.remove_keys(linked.dom()))
    &&& lists_heads(choices.linked_heads, choices.linked_configs)
    &&& lists_heads(choices.pointer_table_heads, choices.pointer_table_configs)
    &&& heads == choices.direct_heads + choices.table_heads + choices.linked_heads
        + choices.pointer_table_heads
}

/// At most one register points to buffers directly, and no head is that of a register that was
/// shown not to hold pointers, or that sends.
pub proof fn lemma_heads(
    snippets: Seq<SnippetModel>,
    choices: Choices,
    heads: Seq<DmaDescriptorHead>,
    known_sizes: Seq<(SymbolizedValue, SizeRange)>,
)
    requires
        summarizes_with(snippets, choices, heads, known_sizes),
    ensures
        choices.direct_heads.len() <= 1,
        forall|i: int|
            0 <= i < heads.len() ==> !without_votes(snippets).contains((#[trigger] heads[i]).addr),
{
    let types = merged_types(snippets);
    let linked = chosen_layouts(types, linked_choice());
    let tables = chosen_layouts(types, table_choice());
    let bufs = joined(choices.ballots);
    lemma_tally_bound(bufs, without_votes(snippets));
    let votes = tally(bufs, without_votes(snippets));
    let described = choices.pointer_tables.dom().union(linked.dom()).union(tables.dom());
    if choices.direct_heads.len() > 0 {
        assert(eligible(votes, described, choices.direct_heads[0].addr));
        assert(votes.contains_key(choices.direct_heads[0].addr));
    }
    assert forall|r: MmioAddress| types.contains_key(r) implies !without_votes(snippets).contains(
        r,
    ) by {}
    lemma_listed_heads(
        choices.table_heads,
        choices.table_configs.remove_keys(linked.dom()),
        types.dom(),
    );
    lemma_listed_heads(choices.linked_heads, choices.linked_configs, types.dom());
    lemma_listed_heads(choices.pointer_table_heads, choices.pointer_table_configs, types.dom());
    assert forall|i: int| 0 <= i < heads.len() implies !without_votes(snippets).contains(
        (#[trigger] heads[i]).addr,
    ) by {
        let n = choices.direct_heads.len() as int;
        let m = n + choices.table_heads.len();
        let k = m + choices.linked_heads.len();
        if i < n {
            assert(heads[i] == choices.direct_heads[i]);
        } else if i < m {
            assert(heads[i] == choices.table_heads[i - n]);
        } else if i < k {
            assert(heads[i] == choices.linked_heads[i - m]);
        } else {
            assert(heads[i] == choices.pointer_table_heads[i - k]);
        }
    }
}

/// The heads are those of registers that are described.
proof fn lemma_listed_heads(
    heads: Seq<DmaDescriptorHead>,
    configs: Map<MmioAddress, DmaDescriptorPointer>,
    registers: Set<MmioAddress>,
)
    requires
        lists_heads(heads, configs),
        configs.dom().subset_of(registers),
    ensures
        forall|i: int| 0 <= i < heads.len() ==> registers.contains((#[trigger] heads[i]).addr),
{
    let order = choose|order: Seq<MmioAddress>| #[trigger]
        enumerates(order, configs.dom()) && heads == order.map_values(
            |r: MmioAddress| DmaDescriptorHead { addr: r, descriptor: configs[r] },
        );
    assert forall|i: int| 0 <= i < heads.len() implies registers.contains(
        (#[trigger] heads[i]).addr,
    ) by {
        assert(order.to_set().contains(order[i]));
    }
}

/// The listed pointers are well-formed where all of them are.
proof fn lemma_listed_wf(
    heads: Seq<DmaDescriptorHead>,
    configs: Map<MmioAddress, DmaDescriptorPointer>,
)
    requires
        lists_heads(heads, configs),
        forall|r: MmioAddress| #[trigger] configs.contains_key(r) ==> configs[r].wf(),
    ensures
        forall|i: int| 0 <= i < heads.len() ==> (#[trigger] heads[i]).descriptor.wf(),
{
    let order = choose|order: Seq<MmioAddress>| #[trigger]
        enumerates(order, configs.dom()) && heads == order.map_values(
            |r: MmioAddress| DmaDescriptorHead { addr: r, descriptor: configs[r] },
        );
    assert forall|i: int| 0 <= i < heads.len() implies (#[trigger] heads[i]).descriptor.wf() by {
        assert(order.to_set().contains(order[i]));
        assert(configs.contains_key(order[i]));
    }
}

/// The descriptions of descriptors are well-formed.
proof fn lemma_described_wf(
    configs: Map<MmioAddress, DmaDescriptorPointer>,
    types: Map<MmioAddress, PointerModel>,
    layouts: Map<MmioAddress, DescriptorLayoutCandidate>,
)
    requires
        describe_all(configs, types, layouts),
    ensures
        forall|r: MmioAddress| #[trigger] configs.contains_key(r) ==> configs[r].wf(),
{
    let order = choose|order: Seq<MmioAddress>| #[trigger]
        enumerates(order, layouts.dom()) && describe_in_order(configs, types, layouts, order);
    assert forall|r: MmioAddress| #[trigger] configs.contains_key(r) implies configs[r].wf() by {
        assert(order.to_set().contains(r));
        let i = choose|i: int| 0 <= i < order.len() && order[i] == r;
        lemma_describes_wf(
            configs[order[i]],
            types[order[i]],
            layouts[order[i]],
            known_before(types, layouts, order, i),
        );
    }
}

/// The heads and the sizes that snippets lead to are well-formed: no address has two sizes, here
/// and in all buffers.
pub proof fn lemma_summary_wf(
    snippets: Seq<SnippetModel>,
    choices: Choices,
    heads: Seq<DmaDescriptorHead>,
    known_sizes: Seq<(SymbolizedValue, SizeRange)>,
)
    requires
        summarizes_with(snippets, choices, heads, known_sizes),
    ensures
        distinct_values(known_sizes),
        forall|i: int| 0 <= i < heads.len() ==> (#[trigger] heads[i]).descriptor.wf(),
{
    let types = merged_types(snippets);
    let linked = chosen_layouts(types, linked_choice());
    let tables = chosen_layouts(types, table_choice());
    let votes = tally(joined(choices.ballots), without_votes(snippets));
    let described = choices.pointer_tables.dom().union(linked.dom()).union(tables.dom());
    let direct = choices.direct_heads;
    if exists|r: MmioAddress| #[trigger] eligible(votes, described, r) {
        let sizes = choose|sizes: Map<RamAddress, SizeRange>| #[trigger]
            are_most_voted(votes[direct[0].addr].size_votes, sizes) && points_to_buffer(
                direct[0].descriptor,
                sizes.dom(),
            ) && lists_sizes(known_sizes, sizes);
        lemma_lists_sizes_distinct(known_sizes, sizes);
        assert(direct[0].descriptor.wf());
    }
    lemma_described_wf(choices.table_configs, types, tables);
    lemma_described_wf(choices.linked_configs, types, linked);
    assert forall|r: MmioAddress| #[trigger]
        choices.pointer_table_configs.contains_key(r) implies choices.pointer_table_configs[r].wf() by {
        lemma_describes_table_wf(
            choices.pointer_table_configs[r],
            types[r],
            choices.pointer_tables[r],
        );
    }
    let kept = choices.table_configs.remove_keys(linked.dom());
    assert forall|r: MmioAddress| #[trigger] kept.contains_key(r) implies kept[r].wf() by {
        assert(choices.table_configs.contains_key(r));
    }
    lemma_listed_wf(choices.table_heads, kept);
    lemma_listed_wf(choices.linked_heads, choices.linked_configs);
    lemma_listed_wf(choices.pointer_table_heads, choices.pointer_table_configs);
    assert forall|i: int| 0 <= i < heads.len() implies (#[trigger] heads[i]).descriptor.wf() by {
        let n = direct.len() as int;
        let m = n + choices.table_heads.len();
        let k = m + choices.linked_heads.len();
        if i < n {
            assert(heads[i] == direct[i]);
        } else if i < m {
            assert(heads[i] == choices.table_heads[i - n]);
        } else if i < k {
            assert(heads[i] == choices.linked_heads[i - m]);
        } else {
            assert(heads[i] == choices.pointer_table_heads[i - k]);
        }
    }
}

/// The heads of a configuration that may be absent.
pub open spec fn heads_of(config: Option<DmaConfig>) -> Seq<DmaDescriptorHead> {
    match config {
        Some(config) => config.descriptor_heads@,
        None => Seq::empty(),
    }
}

/// The known sizes of a configuration that may be absent.
pub open spec fn sizes_of(config: Option<DmaConfig>) -> Seq<(SymbolizedValue, SizeRange)> {
    match config {
        Some(config) => config.known_sizes@,
        None => Seq::empty(),
    }
}

/// The configuration is one that the snippets lead to; there is none where it would have no heads.
pub open spec fn summarizes(snippets: Seq<SnippetModel>, config: Option<DmaConfig>) -> bool {
    &&& config is Some <==> heads_of(config).len() > 0
    &&& exists|choices: Choices| #[trigger]
        summarizes_with(snippets, choices, heads_of(config), sizes_of(config))
}

/// Some type has fields, but not those of a layout, or a descriptor cannot be described in some
/// order of the registers.
pub open spec fn malformed(types: Map<MmioAddress, PointerModel>) -> bool {
    let linked = chosen_layouts(types, linked_choice());
    let tables = chosen_layouts(types, table_choice());
    ||| !all_chosen(types, linked_choice())
    ||| !all_chosen(types, table_choice())
    ||| !all_laid_out(types)
    ||| exists|order: Seq<MmioAddress>| #[trigger]
        enumerates(order, linked.dom()) && !all_describable(types, linked, order)
    ||| exists|order: Seq<MmioAddress>| #[trigger]
        enumerates(order, tables.dom()) && !all_describable(types, tables, order)
    ||| exists|pointer_tables: Map<MmioAddress, Map<usize, DescriptorLayoutCandidate>>| #[trigger]
        are_pointer_tables(types, pointer_tables) && !all_tables_describable(
            types,
            pointer_tables,
        )
}

/// Why snippets cannot be summarised.
#[derive(Debug, Clone, Copy, PartialEq, Eq, Structural)]
pub enum SummaryError {
    /// The guesses at what lies behind a register cannot be merged.
    IncompatibleTypes,
    /// A guess has fields, but not those of a descriptor that it leads to.
    MalformedTypes,
}

/// Lists the eligible registers with their votes.
fn list_eligible(
    votes: &FxHashMap<MmioAddress, BufVoteEntry>,
    pointer_tables: &FxHashMap<MmioAddress, FxHashMap<usize, DescriptorLayoutCandidate>>,
    linked: &FxHashMap<MmioAddress, DescriptorLayoutCandidate>,
    tables: &FxHashMap<MmioAddress, DescriptorLayoutCandidate>,
) -> (res: Vec<(MmioAddress, u128)>)
    ensures
        ({
            let described = pointer_tables@.dom().union(linked@.dom()).union(tables@.dom());
            &&& forall|i: int|
                0 <= i < res@.len() ==> eligible(
                    vote_views(votes@),
                    described,
                    (#[trigger] res@[i]).0,
                ) && res@[i].1 == vote_views(votes@)[res@[i].0].num_votes
            &&& forall|r: MmioAddress| #[trigger]
                eligible(vote_views(votes@), described, r) ==> exists|i: int|
                    0 <= i < res@.len() && (#[trigger] res@[i]).0 == r
        }),
{
    let ghost views = vote_views(votes@);
    let ghost described = pointer_tables@.dom().union(linked@.dom()).union(tables@.dom());
    let keys = map_keys(votes);
    let mut res: Vec<(MmioAddress, u128)> = Vec::new();
    let mut i: usize = 0;
    while i < keys.len()
        invariant
            views == vote_views(votes@),
            described == pointer_tables@.dom().union(linked@.dom()).union(tables@.dom()),
            enumerates(keys@, votes@.dom()),
            i <= keys@.len(),
            forall|j: int|
                0 <= j < res@.len() ==> eligible(views, described, (#[trigger] res@[j]).0)
                    && res@[j].1 == views[res@[j].0].num_votes,
            forall|k: int|
                0 <= k < i && eligible(views, described, #[trigger] keys@[k]) ==> exists|j: int|
                    0 <= j < res@.len() && (#[trigger] res@[j]).0 == keys@[k],
        decreases keys.len() - i,
    {
        let r = keys[i];
        assert(keys@.to_set().contains(r));
        let vote = map_get(votes, &r).unwrap();
        assert(views.contains_key(r) && views[r] == vote@);
        let ghost before = res@;
        if vote.conflicts.len() == 0 && !map_contains(pointer_tables, &r) && !map_contains(
            linked,
            &r,
        ) && !map_contains(tables, &r) {
            res.push((r, vote.num_votes));
            assert(res@[before.len() as int].0 == r);
        }
        assert forall|k: int|
            0 <= k < i + 1 && eligible(views, described, #[trigger] keys@[k]) implies exists|
            j: int,
        | 0 <= j < res@.len() && (#[trigger] res@[j]).0 == keys@[k] by {
            if k < i {
                let j = choose|j: int|
                    0 <= j < before.len() && (#[trigger] before[j]).0 == keys@[k];
                assert(res@[j] == before[j]);
            }
        }
        i += 1;
    }
    assert forall|r: MmioAddress| #[trigger] eligible(views, described, r) implies exists|j: int|
        0 <= j < res@.len() && (#[trigger] res@[j]).0 == r by {
        assert(keys@.to_set().contains(r));
        let k = choose|k: int| 0 <= k < keys@.len() && keys@[k] == r;
        assert(eligible(views, described, keys@[k]));
    }
    res
}

/// Adds the register with the most votes, with the sizes of its buffers with the most votes.
fn add_direct_part(
    config: &mut DmaConfig,
    votes: &FxHashMap<MmioAddress, BufVoteEntry>,
    pointer_tables: &FxHashMap<MmioAddress, FxHashMap<usize, DescriptorLayoutCandidate>>,
    linked: &FxHashMap<MmioAddress, DescriptorLayoutCandidate>,
    tables: &FxHashMap<MmioAddress, DescriptorLayoutCandidate>,
)
    requires
        old(config).descriptor_heads@.len() == 0,
        old(config).known_sizes@.len() == 0,
        all_votes_ok(votes@),
    ensures
        direct_part(
            vote_views(votes@),
            pointer_tables@.dom().union(linked@.dom()).union(tables@.dom()),
            final(config).descriptor_heads@,
            final(config).known_sizes@,
        ),
{
    let ghost views = vote_views(votes@);
    let ghost described = pointer_tables@.dom().union(linked@.dom()).union(tables@.dom());
    let entries = list_eligible(votes, pointer_tables, linked, tables);
    let ghost listed = entries@;
    match most_voted_register(entries) {
        Some(r) => {
            let ghost i = choose|i: int|
                0 <= i < listed.len() && (#[trigger] listed[i]).0 == r && (forall|j: int|
                    0 <= j < listed.len() ==> (#[trigger] listed[j]).1 <= listed[i].1);
            proof {
                assert(eligible(views, described, listed[i].0));
                assert forall|q: MmioAddress| #[trigger]
                    eligible(views, described, q) implies views[q].num_votes
                    <= views[r].num_votes by {
                    let j = choose|j: int| 0 <= j < listed.len() && (#[trigger] listed[j]).0 == q;
                    assert(listed[j].1 <= listed[i].1);
                }
                assert(votes@.contains_key(r));
            }
            let vote = map_get(votes, &r).unwrap();
            assert(views[r] == vote@);
            let sizes = vote.highest_voted_sizes();
            let ghost known = sizes@;
            let pointer = DmaDescriptorPointer::from_known_sizes(&sizes);
            config.add_descriptor(r, pointer);
            config.add_known_buf_sizes(sizes);
            proof {
                let order = choose|order: Seq<RamAddress>| #[trigger]
                    enumerates(order, known.dom()) && config.known_sizes@ == with_sizes(
                        old(config).known_sizes@,
                        order,
                        known,
                    );
                assert(old(config).known_sizes@ =~= Seq::empty());
                lemma_first_sizes(order, known);
                assert(lists_sizes(config.known_sizes@, known));
                assert(config.descriptor_heads@[0].addr == r);
                assert(are_most_voted(views[r].size_votes, known));
            }
        },
        None => {
            assert forall|r: MmioAddress| !#[trigger] eligible(views, described, r) by {
                if eligible(views, described, r) {
                    let j = choose|j: int| 0 <= j < listed.len() && (#[trigger] listed[j]).0 == r;
                }
            }
        },
    }
}

/// Summarises snippets: the configuration that they lead to, where there is one.
pub fn summarize_snippets(snippets: &[DmaAnalysisSnippet]) -> (res: Result<
    Option<DmaConfig>,
    SummaryError,
>)
    ensures
        ({
            let views = snippet_views(snippets@);
            let mergeable = all_types_mergeable(views, without_types(views));
            &&& res == Err::<Option<DmaConfig>, SummaryError>(SummaryError::IncompatibleTypes)
                <==> !mergeable
            &&& res == Err::<Option<DmaConfig>, SummaryError>(SummaryError::MalformedTypes)
                ==> malformed(merged_types(views))
            &&& mergeable && !malformed(merged_types(views)) ==> res is Ok
            &&& res matches Ok(config) ==> summarizes(views, config)
            &&& res matches Ok(Some(config)) ==> config.wf()
        }),
{
    let ghost views = snippet_views(snippets@);
    let non_pointers = extract_pointer_counterexamples(snippets);
    let misaligned = extract_misaligned_pointer_regs(snippets);
    let tx_registers = extract_tx_registers(snippets);
    let votes = extract_buf_votes_from_fuzzware_snippets(snippets, &non_pointers, &tx_registers);
    let ghost ballots = choose|ballots: Seq<Seq<BufModel>>| #[trigger]
        are_ballots(ballots, views) && vote_views(votes@) == tally(
            joined(ballots),
            without_votes(views),
        );
    let types = match gather_common_types(snippets, &non_pointers, &misaligned, &tx_registers) {
        Some(types) => types,
        None => {
            return Err(SummaryError::IncompatibleTypes);
        },
    };
    let ghost merged = merged_types(views);
    assert(type_views(types@) == merged);
    assert(merged.dom() =~= types@.dom());
    let linked = match synthesize_ram_based_linked_descriptors(&types) {
        Some(linked) => linked,
        None => {
            return Err(SummaryError::MalformedTypes);
        },
    };
    let linked_configs = match describe_descriptors(&types, &linked) {
        Some(configs) => configs,
        None => {
            return Err(SummaryError::MalformedTypes);
        },
    };
    let tables = match synthesize_ram_based_descriptor_table(&types) {
        Some(tables) => tables,
        None => {
            return Err(SummaryError::MalformedTypes);
        },
    };
    let table_configs = match describe_descriptors(&types, &tables) {
        Some(configs) => configs,
        None => {
            return Err(SummaryError::MalformedTypes);
        },
    };
    let pointer_tables = match synthesize_descriptor_pointer_table(&types) {
        Some(tables) => tables,
        None => {
            return Err(SummaryError::MalformedTypes);
        },
    };
    let ghost layouts = table_views(pointer_tables@);
    proof {
        assert(layouts.dom() =~= pointer_tables@.dom());
        assert forall|r: MmioAddress| pointer_tables@.dom().contains(r) implies types@.dom().contains(
            r,
        ) by {
            assert(layouts.contains_key(r));
        }
    }
    let pointer_table_configs = match describe_pointer_tables(&types, &pointer_tables) {
        Some(configs) => configs,
        None => {
            assert(are_pointer_tables(merged, layouts));
            return Err(SummaryError::MalformedTypes);
        },
    };
    let mut config = DmaConfig::default();
    add_direct_part(&mut config, &votes, &pointer_tables, &linked, &tables);
    let ghost direct_heads = config.descriptor_heads@;
    let ghost known_sizes = config.known_sizes@;
    let ghost tables_map = table_configs@;
    let ghost linked_map = linked_configs@;
    let ghost pointer_tables_map = pointer_table_configs@;
    add_heads(&mut config, table_configs, &linked);
    let ghost table_heads = choose|heads: Seq<DmaDescriptorHead>| #[trigger]
        lists_heads(heads, tables_map.remove_keys(linked@.dom())) && config.descriptor_heads@
            == direct_heads + heads;
    let none: FxHashMap<MmioAddress, DescriptorLayoutCandidate> = FxHashMap::default();
    assert(linked_map.remove_keys(none@.dom()) =~= linked_map);
    assert(pointer_tables_map.remove_keys(none@.dom()) =~= pointer_tables_map);
    let ghost before = config.descriptor_heads@;
    add_heads(&mut config, linked_configs, &none);
    let ghost linked_heads = choose|heads: Seq<DmaDescriptorHead>| #[trigger]
        lists_heads(heads, linked_map) && config.descriptor_heads@ == before + heads;
    let ghost before = config.descriptor_heads@;
    add_heads(&mut config, pointer_table_configs, &none);
    let ghost pointer_table_heads = choose|heads: Seq<DmaDescriptorHead>| #[trigger]
        lists_heads(heads, pointer_tables_map) && config.descriptor_heads@ == before + heads;
    let ghost choices = Choices {
        ballots,
        pointer_tables: layouts,
        table_configs: tables_map,
        linked_configs: linked_map,
        pointer_table_configs: pointer_tables_map,
        direct_heads,
        table_heads,
        linked_heads,
        pointer_table_heads,
    };
    assert(summarizes_with(views, choices, config.descriptor_heads@, config.known_sizes@));
    if config.descriptor_heads.len() == 0 {
        proof {
            assert(direct_heads.len() == 0);
            assert(known_sizes.len() == 0);
            assert(config.descriptor_heads@ =~= Seq::empty());
            assert(config.known_sizes@ =~= Seq::empty());
            let none = None::<DmaConfig>;
            assert(summarizes_with(views, choices, heads_of(none), sizes_of(none)));
        }
        Ok(None)
    } else {
        proof {
            let some = Some(config);
            lemma_summary_wf(views, choices, config.descriptor_heads@, config.known_sizes@);
            assert(summarizes_with(views, choices, heads_of(some), sizes_of(some)));
        }
        Ok(Some(config))
    }
}

} // verus!
