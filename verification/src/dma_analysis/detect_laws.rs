//! What the analysis of a whole trace finds.

use super::candidates::{candidate_of, candidates, lemma_results_ok, result_ok};
use super::detect::{
    analysable, analysis_of, found_in, guesses_types, is_written, registers_by_buffer, results_of,
    writes_pointer,
};
use super::init_laws::{accessed, lemma_uninitialized_events};
use super::pairs::{decided, pair_of, pairs_in_order};
use super::merge::{merged_field, FieldModel};
use super::pointer_table::pointer_table;
use super::register_analysis::{
    lemma_result_offsets, merged_guess, moment_at, register_results, result_at,
};
use super::register_laws::{
    leads_to_memory, lemma_misaligned_events, lemma_pointer_registers, lemma_register_pointers,
    misaligned_at, only_pointers, writes_pointer_to, writes_register,
};
use super::registers::{memory_pointer_writes, misaligned_writes};
use super::result::ResultModel;
use super::result_laws::{
    delay, gap, in_order, lemma_buffers_exactly, lemma_candidate_exactly, lemma_pair_kept,
    lemma_pair_without_writes, lemma_result_windows, reads_sooner, size_limit, tells,
};
use super::trace_info::{mmio_writes, TraceModel};
use super::type_info::pointer_at;
use super::type_laws::{lemma_merged_guess, lemma_pointer_at, lemma_with_table};
use super::types::{AccessHistEntry, InitializationState, RxTxPair};
use crate::common::{MmioAddress, RamAddress, TraceId};
use crate::dma_snippet::SnippetModel;
use crate::hoedur::bintrace::AccessType;
use crate::tables::{enumerates, lists_values};
use vstd::prelude::*;

verus! {

/// A value of a table is among those that are listed.
proof fn lemma_listed<K, V>(list: Seq<V>, m: Map<K, V>, k: K)
    requires
        lists_values(list, m),
        m.contains_key(k),
    ensures
        list.contains(m[k]),
{
    let order = choose|order: Seq<K>| #[trigger]
        enumerates(order, m.dom()) && list == order.map_values(|k: K| m[k]);
    assert(order.to_set().contains(k));
    let i = choose|i: int| 0 <= i < order.len() && order[i] == k;
    assert(list[i] == m[k]);
}

/// What is known of the results of a register that was analysed.
proof fn lemma_analysed(t: TraceModel, r: MmioAddress)
    requires
        t.wf(),
        analysable(t, memory_pointer_writes(t.map, mmio_writes(t.events))),
        memory_pointer_writes(t.map, mmio_writes(t.events)).contains_key(r),
    ensures
        ({
            let writes = memory_pointer_writes(t.map, mmio_writes(t.events));
            let results = analysis_of(t, writes)[r];
            &&& register_results(t, writes[r], guesses_types(t, r)) == Some(results)
            &&& results.len() == writes[r].len()
            &&& in_order(results)
            &&& forall|i: int|
                0 <= i < results.len() ==> {
                    &&& (#[trigger] results[i]).mmio_access == writes[r][i]
                    &&& 0 <= size_limit(results[i].init_state) <= u64::MAX
                    &&& results[i].trace_range.curr_id < t.events.len()
                }
        }),
{
    let writes = memory_pointer_writes(t.map, mmio_writes(t.events));
    assert(results_of(t, r, writes[r]) is Some);
    reveal(results_of);
    let guessing = guesses_types(t, r);
    let results = register_results(t, writes[r], guessing)->0;
    lemma_results_ok(t, writes[r], guessing);
    lemma_pointer_registers(t.map, t.events, r);
    let p = |i: int| writes_register(t.events, i, r) && t.events[i].access().value != 0;
    assert forall|i: int| 0 <= i < results.len() implies {
        &&& (#[trigger] results[i]).mmio_access == writes[r][i]
        &&& 0 <= size_limit(results[i].init_state) <= u64::MAX
        &&& results[i].trace_range.curr_id < t.events.len()
        &&& (delay(results[i]) matches Some(n) ==> 0 <= n < TraceId::MAX)
        &&& (gap(results[i]) matches Some(n) ==> 0 <= n < TraceId::MAX)
    } by {
        lemma_result_windows(t, writes[r], guessing, i);
        lemma_result_offsets(t, writes[r], i, guessing);
        assert(result_at(t, writes[r], i, guessing) is Some);
        assert(p(writes[r][i].trace_ind as int));
        assert(result_ok(t, results[i]));
        if let InitializationState::Pattern { at_config, .. } = results[i].init_state {
            assert(0 <= at_config.pattern_len * at_config.repetitions) by (nonlinear_arith);
        }
    }
}

/// Every buffer that is read before it is written is found: where a register holds pointers, does
/// not send in a pair, and none of its buffers was in use before, each of its buffers with such an
/// access is a candidate of the register, be it that the buffer was uninitialised or that it held a
/// pattern. Its greatest size is the least one of those that a configuration with it admits: the
/// number of bytes from its start on that are not written between the configuration before with it
/// and this one, or the number of bytes of the pattern.
pub proof fn lemma_buffers_detected(
    t: TraceModel,
    order: Seq<MmioAddress>,
    pair_order: Seq<RamAddress>,
    snippet: SnippetModel,
    r: MmioAddress,
    i: int,
)
    requires
        t.wf(),
        analysable(t, memory_pointer_writes(t.map, mmio_writes(t.events))),
        found_in(t, order, pair_order, snippet),
        snippet.analysis_by_mmio_addr.contains_key(r),
        !snippet.mmio_pointer_counterexamples.contains_key(r),
        forall|k: int|
            0 <= k < snippet.rx_tx_pairs.len() ==> (#[trigger] snippet.rx_tx_pairs[k]).tx_reg != r,
        forall|k: int|
            0 <= k < snippet.analysis_by_mmio_addr[r].len() ==> !((
            #[trigger] snippet.analysis_by_mmio_addr[r][k]).init_state is Used),
        0 <= i < snippet.analysis_by_mmio_addr[r].len(),
        snippet.analysis_by_mmio_addr[r][i].access_state is ReadBeforeWrite,
    ensures
        ({
            let results = snippet.analysis_by_mmio_addr[r];
            let a = results[i].mmio_access.access.value;
            let sizes = snippet.detected_candidates[r].known_sizes;
            &&& snippet.detected_candidates.contains_key(r)
            &&& sizes.contains_key(a)
            &&& sizes[a].min == 1
            &&& (results[i].init_state matches InitializationState::Uninitialized { len, .. }
                ==> sizes[a].max <= len)
            &&& (results[i].init_state matches InitializationState::Pattern { at_config, .. }
                ==> sizes[a].max <= at_config.pattern_len * at_config.repetitions)
            &&& exists|k: int|
                0 <= k < results.len() && (#[trigger] results[k]).mmio_access.access.value == a
                    && results[k].access_state is ReadBeforeWrite && sizes[a].max == size_limit(
                    results[k].init_state,
                )
            &&& results[i].init_state is Uninitialized && results[i].trace_range.prev_id
                < results[i].trace_range.curr_id ==> forall|k: int|
                0 <= k < sizes[a].max ==> !accessed(
                    t.events,
                    results[i].trace_range.prev_id as int,
                    results[i].trace_range.curr_id as int,
                    AccessType::Write,
                    #[trigger] (a + k),
                )
        }),
{
    let writes = memory_pointer_writes(t.map, mmio_writes(t.events));
    let analysis = analysis_of(t, writes);
    let pairs = pairs_in_order(analysis, registers_by_buffer(writes), pair_order).pairs;
    let results = snippet.analysis_by_mmio_addr[r];
    assert(analysis.contains_key(r));
    lemma_analysed(t, r);
    if pairs.contains_key(r) {
        lemma_listed(snippet.rx_tx_pairs, pairs, r);
        let k = choose|k: int|
            0 <= k < snippet.rx_tx_pairs.len() && snippet.rx_tx_pairs[k] == pairs[r];
        assert(pairs[r].tx_reg != r);
    }
    let is_rx = pairs.contains_key(r) && pairs[r].rx_reg == r;
    lemma_candidate_exactly(t, r, results, pairs);
    lemma_buffers_exactly(t, r, results, is_rx, results.len() as int);
    assert(tells(results[i], is_rx));
    assert(candidate_of(t, r, results, pairs) is Some);
    let a = results[i].mmio_access.access.value;
    let sizes = snippet.detected_candidates[r].known_sizes;
    assert(sizes.contains_key(a));
    lemma_result_windows(t, writes[r], guesses_types(t, r), i);
    let prev = results[i].trace_range.prev_id;
    let curr = results[i].trace_range.curr_id;
    if results[i].init_state is Uninitialized && prev < curr {
        lemma_uninitialized_events(t, a, prev, curr, 0x800);
    }
}

/// What would be a candidate of a register is kept among the discarded ones where some write shows
/// that the register does not hold pointers.
pub proof fn lemma_buffers_discarded(
    t: TraceModel,
    order: Seq<MmioAddress>,
    pair_order: Seq<RamAddress>,
    snippet: SnippetModel,
    r: MmioAddress,
    i: int,
)
    requires
        t.wf(),
        analysable(t, memory_pointer_writes(t.map, mmio_writes(t.events))),
        found_in(t, order, pair_order, snippet),
        snippet.analysis_by_mmio_addr.contains_key(r),
        snippet.mmio_pointer_counterexamples.contains_key(r),
        forall|k: int|
            0 <= k < snippet.rx_tx_pairs.len() ==> (#[trigger] snippet.rx_tx_pairs[k]).tx_reg != r,
        forall|k: int|
            0 <= k < snippet.analysis_by_mmio_addr[r].len() ==> !((
            #[trigger] snippet.analysis_by_mmio_addr[r][k]).init_state is Used),
        0 <= i < snippet.analysis_by_mmio_addr[r].len(),
        snippet.analysis_by_mmio_addr[r][i].access_state is ReadBeforeWrite,
    ensures
        !snippet.detected_candidates.contains_key(r),
        exists|k: int|
            0 <= k < snippet.discarded_candidates.len() && (
            #[trigger] snippet.discarded_candidates[k]).mmio_address == r
                && snippet.discarded_candidates[k].known_sizes.contains_key(
                snippet.analysis_by_mmio_addr[r][i].mmio_access.access.value,
            ),
{
    let writes = memory_pointer_writes(t.map, mmio_writes(t.events));
    let analysis = analysis_of(t, writes);
    let pairs = pairs_in_order(analysis, registers_by_buffer(writes), pair_order).pairs;
    let results = snippet.analysis_by_mmio_addr[r];
    assert(analysis.contains_key(r));
    lemma_analysed(t, r);
    if pairs.contains_key(r) {
        lemma_listed(snippet.rx_tx_pairs, pairs, r);
        let k = choose|k: int|
            0 <= k < snippet.rx_tx_pairs.len() && snippet.rx_tx_pairs[k] == pairs[r];
        assert(pairs[r].tx_reg != r);
    }
    let is_rx = pairs.contains_key(r) && pairs[r].rx_reg == r;
    lemma_candidate_exactly(t, r, results, pairs);
    lemma_buffers_exactly(t, r, results, is_rx, results.len() as int);
    assert(tells(results[i], is_rx));
    let buffer = candidate_of(t, r, results, pairs)->0;
    let dropped = candidates(t, analysis, pairs).restrict(
        snippet.mmio_pointer_counterexamples.dom(),
    );
    assert(dropped.contains_key(r) && dropped[r] == buffer);
    lemma_listed(snippet.discarded_candidates, dropped, r);
    let k = choose|k: int|
        0 <= k < snippet.discarded_candidates.len() && snippet.discarded_candidates[k] == dropped[r];
    assert(snippet.discarded_candidates[k].mmio_address == r);
}

/// A candidate is only found for a register that holds pointers and does not send, and only for
/// buffers that are read before they are written.
pub proof fn lemma_candidates_read(
    t: TraceModel,
    order: Seq<MmioAddress>,
    pair_order: Seq<RamAddress>,
    snippet: SnippetModel,
    r: MmioAddress,
    a: RamAddress,
)
    requires
        t.wf(),
        analysable(t, memory_pointer_writes(t.map, mmio_writes(t.events))),
        found_in(t, order, pair_order, snippet),
        snippet.detected_candidates.contains_key(r),
        snippet.detected_candidates[r].known_sizes.contains_key(a),
    ensures
        snippet.detected_candidates[r].mmio_address == r,
        !snippet.mmio_pointer_counterexamples.contains_key(r),
        snippet.analysis_by_mmio_addr.contains_key(r),
        exists|i: int|
            0 <= i < snippet.analysis_by_mmio_addr[r].len() && (
            #[trigger] snippet.analysis_by_mmio_addr[r][i]).mmio_access.access.value == a
                && snippet.analysis_by_mmio_addr[r][i].access_state is ReadBeforeWrite,
        (exists|i: int|
            0 <= i < snippet.analysis_by_mmio_addr[r].len() && (
            #[trigger] snippet.analysis_by_mmio_addr[r][i]).init_state is Used) ==> exists|k: int|
            0 <= k < snippet.rx_tx_pairs.len() && (#[trigger] snippet.rx_tx_pairs[k]).rx_reg == r,
{
    let writes = memory_pointer_writes(t.map, mmio_writes(t.events));
    let analysis = analysis_of(t, writes);
    let pairs = pairs_in_order(analysis, registers_by_buffer(writes), pair_order).pairs;
    let results = snippet.analysis_by_mmio_addr[r];
    assert(analysis.contains_key(r));
    lemma_analysed(t, r);
    let is_rx = pairs.contains_key(r) && pairs[r].rx_reg == r;
    lemma_candidate_exactly(t, r, results, pairs);
    lemma_buffers_exactly(t, r, results, is_rx, results.len() as int);
    if is_rx {
        lemma_listed(snippet.rx_tx_pairs, pairs, r);
        let k = choose|k: int|
            0 <= k < snippet.rx_tx_pairs.len() && snippet.rx_tx_pairs[k] == pairs[r];
        assert(snippet.rx_tx_pairs[k].rx_reg == r);
    }
}

/// A register is given the buffer `a` in one of its results.
pub open spec fn is_given(results: Seq<ResultModel>, a: RamAddress) -> bool {
    exists|i: int| 0 <= i < results.len() && (#[trigger] results[i]).mmio_access.access.value == a
}

/// The registers of a buffer are those with a result for it.
proof fn lemma_registers_of(t: TraceModel, a: RamAddress, r: MmioAddress)
    requires
        t.wf(),
        analysable(t, memory_pointer_writes(t.map, mmio_writes(t.events))),
    ensures
        ({
            let writes = memory_pointer_writes(t.map, mmio_writes(t.events));
            let analysis = analysis_of(t, writes);
            let regs = registers_by_buffer(writes);
            &&& regs.contains_key(a) ==> (regs[a].contains(r) <==> analysis.contains_key(r)
                && is_given(analysis[r], a))
            &&& analysis.contains_key(r) && is_given(analysis[r], a) ==> regs.contains_key(a)
        }),
{
    let writes = memory_pointer_writes(t.map, mmio_writes(t.events));
    let analysis = analysis_of(t, writes);
    if writes.contains_key(r) {
        lemma_analysed(t, r);
        if is_given(analysis[r], a) {
            let i = choose|i: int|
                0 <= i < analysis[r].len() && (
                #[trigger] analysis[r][i]).mmio_access.access.value == a;
            assert(writes[r][i].access.value == a);
            assert(writes_pointer(writes[r], a));
            assert(is_written(writes, a));
        }
        if writes_pointer(writes[r], a) {
            let i = choose|i: int|
                0 <= i < writes[r].len() && (#[trigger] writes[r][i]).access.value == a;
            assert(analysis[r][i].mmio_access.access.value == a);
        }
    }
}

/// The buffer `a` is the only one that the two registers share with any register, and each other.
pub open spec fn share_only(
    analysis: Map<MmioAddress, Seq<ResultModel>>,
    a: RamAddress,
    rx: MmioAddress,
    tx: MmioAddress,
) -> bool {
    &&& rx != tx
    &&& analysis.contains_key(rx) && is_given(analysis[rx], a)
    &&& analysis.contains_key(tx) && is_given(analysis[tx], a)
    &&& forall|r: MmioAddress, b: RamAddress|
        analysis.contains_key(r) && #[trigger] is_given(analysis[r], b) ==> {
            &&& r != rx ==> (r == tx && a == b) || !is_given(analysis[rx], b)
            &&& r != tx ==> (r == rx && a == b) || !is_given(analysis[tx], b)
        }
}

/// No configuration has a write to its buffer of other than a typical value before it.
pub open spec fn none_written(results: Seq<ResultModel>) -> bool {
    forall|i: int| 0 <= i < results.len() ==> gap(#[trigger] results[i]) is None
}

/// The pair of two registers that share one buffer.
proof fn lemma_pair_alone(
    t: TraceModel,
    pair_order: Seq<RamAddress>,
    a: RamAddress,
    rx: MmioAddress,
    tx: MmioAddress,
)
    requires
        t.wf(),
        analysable(t, memory_pointer_writes(t.map, mmio_writes(t.events))),
        enumerates(
            pair_order,
            registers_by_buffer(memory_pointer_writes(t.map, mmio_writes(t.events))).dom(),
        ),
        ({
            let analysis = analysis_of(t, memory_pointer_writes(t.map, mmio_writes(t.events)));
            &&& share_only(analysis, a, rx, tx)
            &&& analysis[rx].len() > 1 && analysis[tx].len() > 1
            &&& none_written(analysis[rx]) && none_written(analysis[tx])
            &&& reads_sooner(analysis[rx], analysis[tx])
        }),
    ensures
        ({
            let writes = memory_pointer_writes(t.map, mmio_writes(t.events));
            let pairs = pairs_in_order(
                analysis_of(t, writes),
                registers_by_buffer(writes),
                pair_order,
            ).pairs;
            let pair = RxTxPair { ram_addr: a, rx_reg: rx, tx_reg: tx };
            &&& pairs.contains_key(rx) && pairs[rx] == pair
            &&& pairs.contains_key(tx) && pairs[tx] == pair
        }),
{
    let writes = memory_pointer_writes(t.map, mmio_writes(t.events));
    let analysis = analysis_of(t, writes);
    let regs = registers_by_buffer(writes);
    let pairs = pairs_in_order(analysis, regs, pair_order).pairs;
    let pair = RxTxPair { ram_addr: a, rx_reg: rx, tx_reg: tx };
    lemma_analysed(t, rx);
    lemma_analysed(t, tx);
    lemma_registers_of(t, a, rx);
    lemma_registers_of(t, a, tx);
    assert forall|r: MmioAddress| #[trigger] regs[a].contains(r) <==> r == rx || r == tx by {
        lemma_registers_of(t, a, r);
    }
    lemma_pair_without_writes(analysis, a, regs[a], rx, tx);
    assert(pair_order.to_set().contains(a));
    assert forall|b: RamAddress|
        #![trigger pair_of(analysis, b, regs[b])]
        pair_order.contains(b) && b != a implies (pair_of(analysis, b, regs[b]) matches Some(other)
        ==> other.rx_reg != rx && other.rx_reg != tx && other.tx_reg != rx && other.tx_reg
        != tx) by {
        if let Some(other) = pair_of(analysis, b, regs[b]) {
            assert(pair_order.to_set().contains(b));
            assert(decided(analysis, regs[b], other.rx_reg, other.tx_reg));
            assert(regs[b].contains(other.rx_reg) && regs[b].contains(other.tx_reg));
            lemma_registers_of(t, b, other.rx_reg);
            lemma_registers_of(t, b, other.tx_reg);
        }
    }
    lemma_pair_kept(analysis, regs, pair_order, pair);
    assert(pairs.contains_key(rx) && pairs.contains_key(tx));
}

/// Where two registers share a buffer that no other register is given, and no other buffer with any
/// register, both were configured more than once, no configuration of either has a write to its
/// buffer of other than a typical value before it, and a read comes sooner for one of them, the two
/// are found as a pair: that one receives, and the other sends and has no candidate.
pub proof fn lemma_pair_detected(
    t: TraceModel,
    order: Seq<MmioAddress>,
    pair_order: Seq<RamAddress>,
    snippet: SnippetModel,
    a: RamAddress,
    rx: MmioAddress,
    tx: MmioAddress,
)
    requires
        t.wf(),
        analysable(t, memory_pointer_writes(t.map, mmio_writes(t.events))),
        enumerates(
            pair_order,
            registers_by_buffer(memory_pointer_writes(t.map, mmio_writes(t.events))).dom(),
        ),
        found_in(t, order, pair_order, snippet),
        share_only(snippet.analysis_by_mmio_addr, a, rx, tx),
        snippet.analysis_by_mmio_addr[rx].len() > 1,
        snippet.analysis_by_mmio_addr[tx].len() > 1,
        none_written(snippet.analysis_by_mmio_addr[rx]),
        none_written(snippet.analysis_by_mmio_addr[tx]),
        reads_sooner(snippet.analysis_by_mmio_addr[rx], snippet.analysis_by_mmio_addr[tx]),
    ensures
        snippet.rx_tx_pairs.contains(RxTxPair { ram_addr: a, rx_reg: rx, tx_reg: tx }),
        !snippet.detected_candidates.contains_key(tx),
{
    let writes = memory_pointer_writes(t.map, mmio_writes(t.events));
    let analysis = analysis_of(t, writes);
    let pairs = pairs_in_order(analysis, registers_by_buffer(writes), pair_order).pairs;
    assert(snippet.analysis_by_mmio_addr == analysis);
    lemma_analysed(t, tx);
    lemma_pair_alone(t, pair_order, a, rx, tx);
    lemma_listed(snippet.rx_tx_pairs, pairs, rx);
    lemma_candidate_exactly(t, tx, analysis[tx], pairs);
}

/// The registers that are analysed are those that are written with pointers only, a pointer to
/// memory among them, and each write to them of another value than zero has a result, in the order
/// of the trace.
pub proof fn lemma_analysed_registers(
    t: TraceModel,
    order: Seq<MmioAddress>,
    pair_order: Seq<RamAddress>,
    snippet: SnippetModel,
    r: MmioAddress,
)
    requires
        t.wf(),
        analysable(t, memory_pointer_writes(t.map, mmio_writes(t.events))),
        found_in(t, order, pair_order, snippet),
    ensures
        snippet.analysis_by_mmio_addr.contains_key(r) <==> only_pointers(t.map, t.events, r)
            && exists|i: int| #[trigger]
            writes_register(t.events, i, r) && leads_to_memory(t.map, t.events[i].access().value),
        snippet.analysis_by_mmio_addr.contains_key(r) ==> {
            let results = snippet.analysis_by_mmio_addr[r];
            &&& forall|i: int|
                #[trigger] writes_register(t.events, i, r) && t.events[i].access().value != 0
                    ==> exists|k: int|
                    0 <= k < results.len() && (#[trigger] results[k]).trace_range.curr_id == i
                        && results[k].mmio_access.trace_ind == i && results[k].mmio_access.access
                        == t.events[i].access()
            &&& forall|k: int|
                0 <= k < results.len() ==> writes_register(
                    t.events,
                    (#[trigger] results[k]).trace_range.curr_id as int,
                    r,
                )
            &&& forall|k: int, l: int|
                0 <= k < l < results.len() ==> (#[trigger] results[k]).trace_range.curr_id < (
                #[trigger] results[l]).trace_range.curr_id
        },
{
    let writes = memory_pointer_writes(t.map, mmio_writes(t.events));
    lemma_pointer_registers(t.map, t.events, r);
    if snippet.analysis_by_mmio_addr.contains_key(r) {
        lemma_analysed(t, r);
        let results = snippet.analysis_by_mmio_addr[r];
        let p = |i: int| writes_register(t.events, i, r) && t.events[i].access().value != 0;
        assert forall|k: int| 0 <= k < results.len() implies (
        #[trigger] results[k]).trace_range.curr_id == writes[r][k].trace_ind
            && results[k].mmio_access == writes[r][k] by {
            lemma_result_windows(t, writes[r], guesses_types(t, r), k);
        }
        assert forall|k: int| 0 <= k < results.len() implies writes_register(
            t.events,
            (#[trigger] results[k]).trace_range.curr_id as int,
            r,
        ) by {
            assert(p(writes[r][k].trace_ind as int));
        }
        assert forall|i: int|
            #[trigger] writes_register(t.events, i, r) && t.events[i].access().value
                != 0 implies exists|k: int|
            0 <= k < results.len() && (#[trigger] results[k]).trace_range.curr_id == i
                && results[k].mmio_access.trace_ind == i && results[k].mmio_access.access
                == t.events[i].access() by {
            assert(p(i));
            let k = choose|k: int|
                0 <= k < writes[r].len() && (#[trigger] writes[r][k]).trace_ind == i;
            assert(results[k].trace_range.curr_id == i);
        }
        assert forall|k: int, l: int| 0 <= k < l < results.len() implies (
        #[trigger] results[k]).trace_range.curr_id < (
        #[trigger] results[l]).trace_range.curr_id by {
            assert(writes[r][k].trace_ind < writes[r][l].trace_ind);
        }
    }
}

/// What lies behind the pointers of a register is guessed where the register is analysed, and is
/// written neither with a misaligned pointer to memory nor with a pointer to a register; and then
/// the guess knows every pointer that was written to it.
pub proof fn lemma_guessed_registers(
    t: TraceModel,
    order: Seq<MmioAddress>,
    pair_order: Seq<RamAddress>,
    snippet: SnippetModel,
    r: MmioAddress,
)
    requires
        t.wf(),
        analysable(t, memory_pointer_writes(t.map, mmio_writes(t.events))),
        found_in(t, order, pair_order, snippet),
    ensures
        snippet.guessed_type_by_mmio_addr.contains_key(r) <==> {
            &&& snippet.analysis_by_mmio_addr.contains_key(r)
            &&& forall|i: int| #[trigger]
                writes_register(t.events, i, r) ==> {
                    let value = t.events[i].access().value;
                    value != 0 ==> !t.map.is_mmio(value) && value % 4 == 0
                }
        },
        snippet.guessed_type_by_mmio_addr.contains_key(r) ==> forall|v: RamAddress|
            snippet.guessed_type_by_mmio_addr[r].known_values.contains(v) <==> #[trigger] is_given(
                snippet.analysis_by_mmio_addr[r],
                v,
            ),
{
    let writes = memory_pointer_writes(t.map, mmio_writes(t.events));
    lemma_pointer_registers(t.map, t.events, r);
    lemma_misaligned_events(t.map, t.events, r);
    lemma_register_pointers(t.map, t.events, r);
    if writes.contains_key(r) {
        lemma_analysed(t, r);
        reveal(results_of);
        let results = snippet.analysis_by_mmio_addr[r];
        let guessing = guesses_types(t, r);
        lemma_merged_guess(results);
        assert forall|k: int| 0 <= k < results.len() implies ((
        #[trigger] results[k]).raw_type_guess is Some <==> guessing) by {
            lemma_result_windows(t, writes[r], guessing, k);
        }
        let i = choose|i: int| #[trigger]
            writes_register(t.events, i, r) && leads_to_memory(t.map, t.events[i].access().value);
        let p = |i: int| writes_register(t.events, i, r) && t.events[i].access().value != 0;
        assert(p(i));
        let k = choose|k: int|
            0 <= k < writes[r].len() && (#[trigger] writes[r][k]).trace_ind == i;
        assert(results[k].raw_type_guess is Some <==> guessing);
        assert(guessing <==> forall|i: int| #[trigger]
            writes_register(t.events, i, r) ==> {
                let value = t.events[i].access().value;
                value != 0 ==> !t.map.is_mmio(value) && value % 4 == 0
            }) by {
            if guessing {
                assert forall|i: int| #[trigger] writes_register(t.events, i, r) implies {
                    let value = t.events[i].access().value;
                    value != 0 ==> !t.map.is_mmio(value) && value % 4 == 0
                } by {
                    assert(writes_pointer_to(t.map, t.events, i, r));
                    assert(!misaligned_at(t.map, t.events, i, r));
                }
            }
            if misaligned_writes(t.map, mmio_writes(t.events)).contains_key(r) {
                let i = choose|i: int| #[trigger] misaligned_at(t.map, t.events, i, r);
                assert(writes_register(t.events, i, r));
            }
        }
        if guessing {
            let guess = merged_guess(results)->0;
            assert forall|v: RamAddress| guess.known_values.contains(v) <==> #[trigger] is_given(
                results,
                v,
            ) by {
                assert forall|k: int| 0 <= k < results.len() implies ((
                #[trigger] results[k]).raw_type_guess->0.known_values.contains(v)
                    <==> results[k].mmio_access.access.value == v) by {
                    lemma_result_guess(t, writes[r], k);
                }
                if is_given(results, v) {
                    let k = choose|k: int|
                        0 <= k < results.len() && (
                        #[trigger] results[k]).mmio_access.access.value == v;
                    assert(results[k].raw_type_guess->0.known_values.contains(v));
                }
            }
        }
    }
}

/// The guess of a result: what lies behind the pointer, with the entries of a table of pointers,
/// where there is one, merged into its fields. It knows the pointer itself.
pub proof fn lemma_result_guess(t: TraceModel, writes: Seq<AccessHistEntry>, i: int)
    requires
        register_results(t, writes, true) is Some,
        0 <= i < writes.len(),
    ensures
        ({
            let guess = register_results(t, writes, true)->0[i].raw_type_guess;
            let value = writes[i].access.value;
            let moment = moment_at(writes, i);
            let pointer = pointer_at(t, value, moment);
            let table = pointer_table(t, value, pointer->0, moment);
            &&& guess is Some && pointer is Some && table is Some
            &&& guess->0.to.len() == pointer->0.to.len()
            &&& forall|k: int|
                0 <= k < guess->0.to.len() ==> #[trigger] guess->0.to[k] == if k < table->0.len() {
                    merged_field(
                        pointer->0.to[k],
                        FieldModel::Pointer { pointer: table->0[k] },
                    )
                } else {
                    pointer->0.to[k]
                }
            &&& forall|v: RamAddress| #[trigger]
                guess->0.known_values.contains(v) <==> v == value
        }),
{
    assert(result_at(t, writes, i, true) is Some);
    let value = writes[i].access.value;
    let moment = moment_at(writes, i);
    let pointer = pointer_at(t, value, moment);
    let table = pointer_table(t, value, pointer->0, moment);
    lemma_pointer_at(t, value, moment);
    lemma_with_table(pointer->0, table->0, table->0.len() as int);
}

} // verus!
