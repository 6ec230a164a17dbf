//! Which registers are given buffers that devices write to.

use super::init_state::{lemma_pattern_bound, MAX_INIT_PATTERN_SCAN_LEN};
use super::register_analysis::{
    has_used, lemma_result_offsets, moment_at, register_results, result_at,
};
use super::result::{result_views, AccessAnalysisResult, ResultModel};
use super::trace_info::{TraceInfo, TraceModel};
use super::types::{
    AccessHistEntry, AccessState, BufModel, DmaBuf, DmaBufMeta, InitializationState, RxTxPair,
    SizeRange,
};
use crate::common::{MmioAddress, RamAddress};
use crate::hoedur::bintrace::TraceEvent;
use crate::mem_view::TimeRange;
use crate::tables::map_insert;
use fxhash::FxHashMap;
use vstd::prelude::*;

verus! {

broadcast use vstd::std_specs::hash::group_hash_axioms;

/// The register receives in its pair.
pub open spec fn receives(pairs: Map<MmioAddress, RxTxPair>, r: MmioAddress) -> bool {
    pairs.contains_key(r) && pairs[r].rx_reg == r
}

/// The register sends in its pair.
pub open spec fn sends(pairs: Map<MmioAddress, RxTxPair>, r: MmioAddress) -> bool {
    pairs.contains_key(r) && pairs[r].tx_reg == r
}

/// The greatest size that the initialisation of a buffer admits: what is uninitialised or holds the
/// pattern. A buffer that was used before may grow without bound.
pub open spec fn max_size(state: InitializationState) -> u64 {
    match state {
        InitializationState::Uninitialized { len, .. } => len as u64,
        InitializationState::Pattern { at_config, .. } => (at_config.pattern_len
            * at_config.repetitions) as u64,
        InitializationState::Used { .. } => u64::MAX,
    }
}

/// The result is one of a buffer that is read before the firmware writes to it, and that was not
/// used before, unless the register receives.
pub open spec fn tells_of_buffer(result: ResultModel, is_rx: bool) -> bool {
    &&& result.init_state is Used ==> is_rx
    &&& result.access_state is ReadBeforeWrite
}

/// The buffer that a result tells of.
pub open spec fn buffer_of(t: TraceModel, r: MmioAddress, result: ResultModel) -> BufModel {
    let read_time = result.access_state->ReadBeforeWrite_read_time;
    BufModel {
        mmio_address: r,
        known_sizes: Map::empty().insert(
            result.mmio_access.access.value,
            SizeRange { min: 1, max: max_size(result.init_state) },
        ),
        config_pc: result.mmio_access.access.pc,
        access_pc: t.events[read_time as int].access().pc,
    }
}

/// The buffers that the first `n` results tell of, merged in their order.
pub open spec fn buffers_of(
    t: TraceModel,
    r: MmioAddress,
    results: Seq<ResultModel>,
    is_rx: bool,
    n: int,
) -> Option<BufModel>
    decreases n,
{
    if n <= 0 {
        None
    } else {
        let before = buffers_of(t, r, results, is_rx, n - 1);
        if tells_of_buffer(results[n - 1], is_rx) {
            let buffer = buffer_of(t, r, results[n - 1]);
            match before {
                Some(before) => Some(before.merged(buffer)),
                None => Some(buffer),
            }
        } else {
            before
        }
    }
}

/// The buffers of a register that devices write to. A register that sends has none, nor has one
/// with a buffer that was used before, unless it receives.
pub open spec fn candidate_of(
    t: TraceModel,
    r: MmioAddress,
    results: Seq<ResultModel>,
    pairs: Map<MmioAddress, RxTxPair>,
) -> Option<BufModel> {
    if sends(pairs, r) || (has_used(results) && !receives(pairs, r)) {
        None
    } else {
        buffers_of(t, r, results, receives(pairs, r), results.len() as int)
    }
}

/// The registers that are given buffers that devices write to, with these buffers.
pub open spec fn candidates(
    t: TraceModel,
    analysis: Map<MmioAddress, Seq<ResultModel>>,
    pairs: Map<MmioAddress, RxTxPair>,
) -> Map<MmioAddress, BufModel> {
    Map::new(
        |r: MmioAddress|
            analysis.contains_key(r) && candidate_of(t, r, analysis[r], pairs) is Some,
        |r: MmioAddress| candidate_of(t, r, analysis[r], pairs)->0,
    )
}

/// The buffers are those of the register, and each of them is one that a result tells of.
pub proof fn lemma_buffers(
    t: TraceModel,
    r: MmioAddress,
    results: Seq<ResultModel>,
    is_rx: bool,
    n: int,
)
    requires
        n <= results.len(),
    ensures
        buffers_of(t, r, results, is_rx, n) matches Some(buffers) ==> {
            &&& buffers.mmio_address == r
            &&& forall|a: RamAddress| #[trigger]
                buffers.known_sizes.contains_key(a) ==> exists|i: int|
                    0 <= i < n && (#[trigger] results[i]).mmio_access.access.value == a
                        && tells_of_buffer(results[i], is_rx)
        },
    decreases n,
{
    if n > 0 {
        lemma_buffers(t, r, results, is_rx, n - 1);
        if let Some(buffers) = buffers_of(t, r, results, is_rx, n) {
            assert forall|a: RamAddress| #[trigger]
                buffers.known_sizes.contains_key(a) implies exists|i: int|
                0 <= i < n && (#[trigger] results[i]).mmio_access.access.value == a
                    && tells_of_buffer(results[i], is_rx) by {
                let before = buffers_of(t, r, results, is_rx, n - 1);
                if before is Some && before->0.known_sizes.contains_key(a) {
                    let i = choose|i: int|
                        0 <= i < n - 1 && (#[trigger] results[i]).mmio_access.access.value == a
                            && tells_of_buffer(results[i], is_rx);
                    assert(results[i].mmio_access.access.value == a);
                } else {
                    assert(results[n - 1].mmio_access.access.value == a);
                }
            }
        }
    }
}

/// The result has a size, and its read is an event of the trace.
pub open spec fn result_ok(t: TraceModel, result: ResultModel) -> bool {
    &&& result.init_state matches InitializationState::Pattern { at_config, .. }
        ==> at_config.pattern_len * at_config.repetitions <= usize::MAX
    &&& result.access_state matches AccessState::ReadBeforeWrite { read_time, .. } ==> read_time
        < t.events.len()
}

/// All results have a size and a read.
pub open spec fn results_ok(t: TraceModel, results: Seq<ResultModel>) -> bool {
    forall|i: int| 0 <= i < results.len() ==> result_ok(t, #[trigger] results[i])
}

/// What is found out about a register has sizes and reads.
pub proof fn lemma_results_ok(t: TraceModel, writes: Seq<AccessHistEntry>, guessing: bool)
    requires
        t.wf(),
    ensures
        register_results(t, writes, guessing) matches Some(results) ==> results_ok(t, results),
{
    if let Some(results) = register_results(t, writes, guessing) {
        assert forall|i: int| 0 <= i < results.len() implies result_ok(t, #[trigger] results[i]) by {
            assert(result_at(t, writes, i, guessing) is Some);
            lemma_result_offsets(t, writes, i, guessing);
            let result = results[i];
            if let InitializationState::Pattern { at_config, .. } = result.init_state {
                let value = writes[i].access.value;
                let moment = moment_at(writes, i);
                lemma_pattern_bound(
                    t.mem,
                    TimeRange::between(moment.init_start, moment.init_end),
                    value as int,
                    value + MAX_INIT_PATTERN_SCAN_LEN,
                    0,
                );
                let n = at_config.repetitions;
                assert(at_config.pattern_len * n <= 4 * n) by (nonlinear_arith)
                    requires
                        0 <= at_config.pattern_len <= 4,
                        0 <= n,
                ;
            }
        }
    }
}

/// Finds the buffers of a register that devices write to.
pub fn find_candidate(
    tinfo: &TraceInfo,
    mmio_addr: MmioAddress,
    results: &Vec<AccessAnalysisResult>,
    has_used_buffer: bool,
    pair: Option<RxTxPair>,
) -> (res: Option<DmaBufMeta>)
    requires
        results_ok(tinfo@, result_views(results@)),
        has_used_buffer == has_used(result_views(results@)),
    ensures
        ({
            let pairs = match pair {
                Some(pair) => Map::empty().insert(mmio_addr, pair),
                None => Map::empty(),
            };
            let candidate = candidate_of(tinfo@, mmio_addr, result_views(results@), pairs);
            &&& res is Some <==> candidate is Some
            &&& res matches Some(res) ==> Some(res@) == candidate
        }),
{
    let ghost views = result_views(results@);
    let is_rx = match pair {
        Some(pair) => mmio_addr == pair.rx_reg,
        None => false,
    };
    let is_tx = match pair {
        Some(pair) => mmio_addr == pair.tx_reg,
        None => false,
    };
    if is_tx {
        return None;
    }
    if has_used_buffer && !is_rx {
        return None;
    }
    let mut res: Option<DmaBufMeta> = None;
    let mut i: usize = 0;
    while i < results.len()
        invariant
            views == result_views(results@),
            results_ok(tinfo@, views),
            i <= results@.len(),
            res is Some <==> buffers_of(tinfo@, mmio_addr, views, is_rx, i as int) is Some,
            res matches Some(res) ==> Some(res@) == buffers_of(
                tinfo@,
                mmio_addr,
                views,
                is_rx,
                i as int,
            ),
        decreases results.len() - i,
    {
        let result = &results[i];
        assert(views[i as int] == result@);
        assert(result_ok(tinfo@, views[i as int]));
        let skipped = matches!(result.init_state, InitializationState::Used { .. }) && !is_rx;
        if let AccessState::ReadBeforeWrite { read_time, .. } = result.access_state {
            if !skipped {
                let max = match result.init_state {
                    InitializationState::Uninitialized { len, .. } => len as u64,
                    InitializationState::Pattern { at_config, .. } => (at_config.pattern_len
                        * at_config.repetitions) as u64,
                    InitializationState::Used { .. } => u64::MAX,
                };
                let TraceEvent::Access(read) = tinfo.trace.events[read_time as usize];
                let mut known_sizes: FxHashMap<RamAddress, SizeRange> = FxHashMap::default();
                map_insert(
                    &mut known_sizes,
                    result.mmio_access.access.value,
                    SizeRange { min: 1, max },
                );
                let buffer = DmaBufMeta {
                    mmio_address: mmio_addr,
                    dma_buf: DmaBuf { known_sizes },
                    config_pc: result.mmio_access.access.pc,
                    access_pc: read.pc,
                };
                assert(buffer@ == buffer_of(tinfo@, mmio_addr, views[i as int]));
                res = match res {
                    Some(mut existing) => {
                        existing.merge_into(&buffer);
                        Some(existing)
                    },
                    None => Some(buffer),
                };
            }
        }
        i += 1;
    }
    res
}

} // verus!
