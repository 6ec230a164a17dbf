//! What is found out about the registers of a trace: which of them receive and send, and which
//! buffers they are given.

use super::access_state::access_state;
use super::candidates::{buffers_of, candidate_of};
use super::init_state::init_state;
use super::pairs::{
    decided, greatest_write_offset, least_read_offset, lemma_decided_once, pair_of, pairs_in_order,
    read_offset, write_offset,
};
use super::register_analysis::{register_results, result_at, writes_value};
use super::result::ResultModel;
use super::trace_info::TraceModel;
use super::types::{AccessHistEntry, AccessState, InitializationState, RxTxPair};
use crate::common::{MmioAddress, RamAddress, TraceId};
use crate::mem_view::TimeRange;
use crate::scan::{last_before, lemma_last_before};
use vstd::prelude::*;

verus! {

/// The number of trace positions from the configuration of a buffer to the first read of it, where
/// it is read before it is written.
pub open spec fn delay(r: ResultModel) -> Option<int> {
    match r.access_state {
        AccessState::ReadBeforeWrite { read_time, .. } => Some(
            read_time - r.mmio_access.trace_ind,
        ),
        _ => None,
    }
}

/// The number of trace positions from the latest write to a buffer to its configuration, where it
/// was written before. A buffer that was only initialised, with one of the values that memory is
/// typically initialised with, does not count as written.
pub open spec fn gap(r: ResultModel) -> Option<int> {
    match r.init_state {
        InitializationState::Used { latest_write_ind: Some(ind), .. } => Some(
            r.mmio_access.trace_ind - ind,
        ),
        InitializationState::Pattern { latest_write_ind: Some(ind), at_config, .. } => {
            let value = at_config.value;
            if value == 0 || value == 0xff || value == 0xffff || value == 0xffffffff {
                None
            } else {
                Some(r.mmio_access.trace_ind - ind)
            }
        },
        _ => None,
    }
}

/// Reads come after the configuration and writes before it, at positions of one trace.
pub open spec fn in_order(results: Seq<ResultModel>) -> bool {
    forall|i: int|
        0 <= i < results.len() ==> {
            &&& (delay(#[trigger] results[i]) matches Some(n) ==> 0 <= n < TraceId::MAX)
            &&& (gap(results[i]) matches Some(n) ==> 0 <= n < TraceId::MAX)
        }
}

/// A buffer of `sooner` is read within fewer positions after it was configured than every one of
/// `later`.
pub open spec fn reads_sooner(sooner: Seq<ResultModel>, later: Seq<ResultModel>) -> bool {
    exists|i: int|
        0 <= i < sooner.len() && (delay(#[trigger] sooner[i]) matches Some(n) && forall|j: int|
            0 <= j < later.len() ==> (delay(#[trigger] later[j]) matches Some(k) ==> n < k))
}

/// Some buffer of the results was not written before it was configured.
pub open spec fn has_unwritten(results: Seq<ResultModel>) -> bool {
    exists|i: int| 0 <= i < results.len() && gap(#[trigger] results[i]) is None
}

/// Every buffer of `recent` was written before it was configured, and some buffer of `other` was
/// not, or was written longer before than every one of `recent`.
pub open spec fn written_recently(recent: Seq<ResultModel>, other: Seq<ResultModel>) -> bool {
    &&& !has_unwritten(recent)
    &&& exists|j: int|
        0 <= j < other.len() && (gap(#[trigger] other[j]) matches Some(n) ==> forall|i: int|
            0 <= i < recent.len() ==> gap(#[trigger] recent[i])->0 < n)
}

proof fn lemma_least(results: Seq<ResultModel>)
    requires
        in_order(results),
    ensures
        forall|i: int|
            0 <= i < results.len() ==> (delay(#[trigger] results[i]) matches Some(n)
                ==> least_read_offset(results) <= n),
        least_read_offset(results) == TraceId::MAX || exists|i: int|
            0 <= i < results.len() && delay(#[trigger] results[i]) == Some(
                least_read_offset(results) as int,
            ),
    decreases results.len(),
{
    if results.len() > 0 {
        let rest = results.drop_last();
        assert forall|i: int| 0 <= i < rest.len() implies {
            &&& (delay(#[trigger] rest[i]) matches Some(n) ==> 0 <= n < TraceId::MAX)
            &&& (gap(rest[i]) matches Some(n) ==> 0 <= n < TraceId::MAX)
        } by {
            assert(rest[i] == results[i]);
        }
        lemma_least(rest);
        let last = results.len() - 1;
        assert(results[last] == results.last());
        assert forall|i: int| 0 <= i < results.len() implies (delay(
            #[trigger] results[i],
        ) matches Some(n) ==> least_read_offset(results) <= n) by {
            if i < last {
                assert(rest[i] == results[i]);
            }
        }
        if least_read_offset(results) != TraceId::MAX {
            if read_offset(results.last()) < least_read_offset(rest) {
                assert(delay(results[last]) == Some(least_read_offset(results) as int));
            } else {
                let i = choose|i: int|
                    0 <= i < rest.len() && delay(#[trigger] rest[i]) == Some(
                        least_read_offset(rest) as int,
                    );
                assert(rest[i] == results[i]);
            }
        }
    }
}

proof fn lemma_greatest(results: Seq<ResultModel>)
    requires
        in_order(results),
    ensures
        forall|i: int|
            0 <= i < results.len() ==> (gap(#[trigger] results[i]) matches Some(n) ==> n
                <= greatest_write_offset(results)),
        has_unwritten(results) <==> greatest_write_offset(results) == TraceId::MAX,
        !has_unwritten(results) && results.len() > 0 ==> exists|i: int|
            0 <= i < results.len() && gap(#[trigger] results[i]) == Some(
                greatest_write_offset(results) as int,
            ),
    decreases results.len(),
{
    if results.len() > 0 {
        let rest = results.drop_last();
        assert forall|i: int| 0 <= i < rest.len() implies {
            &&& (delay(#[trigger] rest[i]) matches Some(n) ==> 0 <= n < TraceId::MAX)
            &&& (gap(rest[i]) matches Some(n) ==> 0 <= n < TraceId::MAX)
        } by {
            assert(rest[i] == results[i]);
        }
        lemma_greatest(rest);
        let last = results.len() - 1;
        assert(results[last] == results.last());
        assert forall|i: int| 0 <= i < results.len() implies (gap(
            #[trigger] results[i],
        ) matches Some(n) ==> n <= greatest_write_offset(results)) by {
            if i < last {
                assert(rest[i] == results[i]);
            }
        }
        if has_unwritten(rest) {
            let i = choose|i: int| 0 <= i < rest.len() && gap(#[trigger] rest[i]) is None;
            assert(gap(results[i]) is None);
        }
        if has_unwritten(results) && !has_unwritten(rest) {
            let i = choose|i: int| 0 <= i < results.len() && gap(#[trigger] results[i]) is None;
            if i < last {
                assert(gap(rest[i]) is None);
            }
        }
        if !has_unwritten(results) {
            if rest.len() > 0 && write_offset(results.last()) < greatest_write_offset(rest) {
                let i = choose|i: int|
                    0 <= i < rest.len() && gap(#[trigger] rest[i]) == Some(
                        greatest_write_offset(rest) as int,
                    );
                assert(rest[i] == results[i]);
            } else {
                assert(gap(results[last]) is Some);
            }
        }
    }
}

/// Two registers are a pair of a buffer, `rx` receiving and `tx` sending, exactly where they are the
/// only ones that are given the buffer, both were configured more than once, a buffer of `rx` is
/// read sooner after it was configured than every one of `tx`, and those of `tx` were written more
/// recently before they were configured, or both have one that was not written.
pub proof fn lemma_pair_exactly(
    analysis: Map<MmioAddress, Seq<ResultModel>>,
    ram_addr: RamAddress,
    regs: Set<MmioAddress>,
    rx: MmioAddress,
    tx: MmioAddress,
)
    requires
        in_order(analysis[rx]),
        in_order(analysis[tx]),
    ensures
        pair_of(analysis, ram_addr, regs) == Some(RxTxPair { ram_addr, rx_reg: rx, tx_reg: tx })
            <==> {
            &&& rx != tx
            &&& forall|r: MmioAddress| #[trigger] regs.contains(r) <==> r == rx || r == tx
            &&& analysis[rx].len() > 1
            &&& analysis[tx].len() > 1
            &&& reads_sooner(analysis[rx], analysis[tx])
            &&& written_recently(analysis[tx], analysis[rx]) || (has_unwritten(analysis[rx])
                && has_unwritten(analysis[tx]))
        },
{
    let a = analysis[rx];
    let b = analysis[tx];
    lemma_least(a);
    lemma_least(b);
    lemma_greatest(a);
    lemma_greatest(b);
    let both = Set::<MmioAddress>::empty().insert(rx).insert(tx);
    if forall|r: MmioAddress| #[trigger] regs.contains(r) <==> r == rx || r == tx {
        assert(regs =~= both);
    }
    if a.len() > 1 && b.len() > 1 {
        assert(reads_sooner(a, b) <==> least_read_offset(a) < least_read_offset(b)) by {
            if reads_sooner(a, b) {
                let i = choose|i: int|
                    0 <= i < a.len() && (delay(#[trigger] a[i]) matches Some(n) && forall|j: int|
                        0 <= j < b.len() ==> (delay(#[trigger] b[j]) matches Some(k) ==> n < k));
                assert(least_read_offset(a) <= delay(a[i])->0);
            }
            if least_read_offset(a) < least_read_offset(b) {
                let i = choose|i: int|
                    0 <= i < a.len() && delay(#[trigger] a[i]) == Some(
                        least_read_offset(a) as int,
                    );
                assert(delay(a[i]) is Some);
            }
        }
        assert(written_recently(b, a) <==> greatest_write_offset(b) < greatest_write_offset(a)) by {
            if written_recently(b, a) {
                let j = choose|j: int|
                    0 <= j < a.len() && (gap(#[trigger] a[j]) matches Some(n) ==> forall|i: int|
                        0 <= i < b.len() ==> gap(#[trigger] b[i])->0 < n);
                if gap(a[j]) is None {
                    assert(has_unwritten(a));
                }
            }
            if greatest_write_offset(b) < greatest_write_offset(a) {
                if has_unwritten(a) {
                    let j = choose|j: int| 0 <= j < a.len() && gap(#[trigger] a[j]) is None;
                    assert(gap(a[j]) is None);
                } else {
                    let j = choose|j: int|
                        0 <= j < a.len() && gap(#[trigger] a[j]) == Some(
                            greatest_write_offset(a) as int,
                        );
                    assert forall|i: int| 0 <= i < b.len() implies gap(#[trigger] b[i])->0
                        < gap(a[j])->0 by {
                        assert(gap(b[i]) is Some);
                    }
                }
            }
        }
    }
    if pair_of(analysis, ram_addr, regs) == Some(RxTxPair { ram_addr, rx_reg: rx, tx_reg: tx }) {
        assert(decided(analysis, regs, rx, tx));
    }
    if decided(analysis, regs, rx, tx) {
        lemma_decided_once(analysis, regs, rx, tx, ram_addr);
    }
}

/// Where two registers share a buffer that no other register is given, both were configured more
/// than once, no configuration of either has a write to the buffer of other than a typical value
/// before it, and a read comes sooner for one of them, that one receives and the other sends.
pub proof fn lemma_pair_without_writes(
    analysis: Map<MmioAddress, Seq<ResultModel>>,
    ram_addr: RamAddress,
    regs: Set<MmioAddress>,
    rx: MmioAddress,
    tx: MmioAddress,
)
    requires
        rx != tx,
        forall|r: MmioAddress| #[trigger] regs.contains(r) <==> r == rx || r == tx,
        in_order(analysis[rx]),
        in_order(analysis[tx]),
        analysis[rx].len() > 1,
        analysis[tx].len() > 1,
        forall|i: int|
            0 <= i < analysis[rx].len() ==> gap(#[trigger] analysis[rx][i]) is None,
        forall|i: int|
            0 <= i < analysis[tx].len() ==> gap(#[trigger] analysis[tx][i]) is None,
        reads_sooner(analysis[rx], analysis[tx]),
    ensures
        pair_of(analysis, ram_addr, regs) == Some(RxTxPair { ram_addr, rx_reg: rx, tx_reg: tx }),
{
    lemma_pair_exactly(analysis, ram_addr, regs, rx, tx);
    assert(gap(analysis[rx][0]) is None);
    assert(gap(analysis[tx][0]) is None);
}

/// A pair whose registers turn up in no other pair is found, whatever becomes of the others.
pub proof fn lemma_pair_kept(
    analysis: Map<MmioAddress, Seq<ResultModel>>,
    regs: Map<RamAddress, Set<MmioAddress>>,
    order: Seq<RamAddress>,
    pair: RxTxPair,
)
    requires
        order.no_duplicates(),
        pair_of(analysis, pair.ram_addr, regs[pair.ram_addr]) == Some(pair),
        forall|a: RamAddress|
            #![trigger pair_of(analysis, a, regs[a])]
            order.contains(a) && a != pair.ram_addr ==> (pair_of(
                analysis,
                a,
                regs[a],
            ) matches Some(other) ==> other.rx_reg != pair.rx_reg && other.rx_reg != pair.tx_reg
                && other.tx_reg != pair.rx_reg && other.tx_reg != pair.tx_reg),
    ensures
        ({
            let found = pairs_in_order(analysis, regs, order);
            &&& !found.colliding.contains(pair.rx_reg) && !found.colliding.contains(pair.tx_reg)
            &&& forall|r: MmioAddress|
                r == pair.rx_reg || r == pair.tx_reg ==> {
                    &&& #[trigger] found.pairs.contains_key(r) <==> order.contains(pair.ram_addr)
                    &&& order.contains(pair.ram_addr) ==> found.pairs[r] == pair
                }
        }),
    decreases order.len(),
{
    if order.len() > 0 {
        let earlier = order.drop_last();
        let last = order.last();
        assert(order[order.len() - 1] == last);
        assert forall|a: RamAddress| #[trigger] earlier.contains(a) implies order.contains(a) && a
            != last by {
            let i = choose|i: int| 0 <= i < earlier.len() && earlier[i] == a;
            assert(order[i] == a);
        }
        assert forall|a: RamAddress| #[trigger] order.contains(a) implies earlier.contains(a) || a
            == last by {
            let i = choose|i: int| 0 <= i < order.len() && order[i] == a;
            if i < earlier.len() {
                assert(earlier[i] == a);
            }
        }
        assert(order.contains(last));
        lemma_pair_kept(analysis, regs, earlier, pair);
    }
}

/// A register that lost its pair has none.
pub proof fn lemma_colliding_unpaired(
    analysis: Map<MmioAddress, Seq<ResultModel>>,
    regs: Map<RamAddress, Set<MmioAddress>>,
    order: Seq<RamAddress>,
)
    ensures
        ({
            let found = pairs_in_order(analysis, regs, order);
            forall|r: MmioAddress| #[trigger]
                found.colliding.contains(r) ==> !found.pairs.contains_key(r)
        }),
    decreases order.len(),
{
    if order.len() > 0 {
        lemma_colliding_unpaired(analysis, regs, order.drop_last());
        let before = pairs_in_order(analysis, regs, order.drop_last());
        let found = pairs_in_order(analysis, regs, order);
        assert forall|r: MmioAddress| #[trigger]
            found.colliding.contains(r) implies !found.pairs.contains_key(r) by {
            assert(before.colliding.contains(r) ==> !before.pairs.contains_key(r));
        }
    }
}

/// Two pairs that share a register, and whose registers turn up in no other pair, collide: that
/// register is left without a pair, and so is the other one of the pair that is met later.
pub proof fn lemma_pairs_collide(
    analysis: Map<MmioAddress, Seq<ResultModel>>,
    regs: Map<RamAddress, Set<MmioAddress>>,
    order: Seq<RamAddress>,
    first: RxTxPair,
    second: RxTxPair,
    shared: MmioAddress,
)
    requires
        order.no_duplicates(),
        order.contains(first.ram_addr),
        order.contains(second.ram_addr),
        first.ram_addr != second.ram_addr,
        pair_of(analysis, first.ram_addr, regs[first.ram_addr]) == Some(first),
        pair_of(analysis, second.ram_addr, regs[second.ram_addr]) == Some(second),
        shared == first.rx_reg || shared == first.tx_reg,
        shared == second.rx_reg || shared == second.tx_reg,
        forall|a: RamAddress|
            #![trigger pair_of(analysis, a, regs[a])]
            order.contains(a) && a != first.ram_addr && a != second.ram_addr ==> (pair_of(
                analysis,
                a,
                regs[a],
            ) matches Some(other) ==> {
                &&& other.rx_reg != first.rx_reg && other.rx_reg != first.tx_reg
                &&& other.tx_reg != first.rx_reg && other.tx_reg != first.tx_reg
                &&& other.rx_reg != second.rx_reg && other.rx_reg != second.tx_reg
                &&& other.tx_reg != second.rx_reg && other.tx_reg != second.tx_reg
            }),
    ensures
        !pairs_in_order(analysis, regs, order).pairs.contains_key(shared),
    decreases order.len(),
{
    let earlier = order.drop_last();
    let last = order.last();
    assert(order[order.len() - 1] == last);
    assert(order.contains(last));
    assert forall|a: RamAddress| #[trigger] earlier.contains(a) implies order.contains(a) && a
        != last by {
        let i = choose|i: int| 0 <= i < earlier.len() && earlier[i] == a;
        assert(order[i] == a);
    }
    assert forall|a: RamAddress| #[trigger] order.contains(a) implies earlier.contains(a) || a
        == last by {
        let i = choose|i: int| 0 <= i < order.len() && order[i] == a;
        if i < earlier.len() {
            assert(earlier[i] == a);
        }
    }
    if last == first.ram_addr {
        lemma_pair_kept(analysis, regs, earlier, second);
        lemma_no_pair_yet(analysis, regs, earlier, first, second);
    } else if last == second.ram_addr {
        lemma_pair_kept(analysis, regs, earlier, first);
        lemma_no_pair_yet(analysis, regs, earlier, second, first);
    } else {
        lemma_pairs_collide(analysis, regs, earlier, first, second, shared);
    }
}

/// The registers of a pair that was not met yet collide with none, but for those of one other pair.
proof fn lemma_no_pair_yet(
    analysis: Map<MmioAddress, Seq<ResultModel>>,
    regs: Map<RamAddress, Set<MmioAddress>>,
    order: Seq<RamAddress>,
    pair: RxTxPair,
    met: RxTxPair,
)
    requires
        order.no_duplicates(),
        !order.contains(pair.ram_addr),
        pair_of(analysis, met.ram_addr, regs[met.ram_addr]) == Some(met),
        forall|a: RamAddress|
            #![trigger pair_of(analysis, a, regs[a])]
            order.contains(a) && a != met.ram_addr ==> (pair_of(
                analysis,
                a,
                regs[a],
            ) matches Some(other) ==> {
                &&& other.rx_reg != pair.rx_reg && other.rx_reg != pair.tx_reg
                &&& other.tx_reg != pair.rx_reg && other.tx_reg != pair.tx_reg
                &&& other.rx_reg != met.rx_reg && other.rx_reg != met.tx_reg
                &&& other.tx_reg != met.rx_reg && other.tx_reg != met.tx_reg
            }),
    ensures
        ({
            let found = pairs_in_order(analysis, regs, order);
            !found.colliding.contains(pair.rx_reg) && !found.colliding.contains(pair.tx_reg)
        }),
    decreases order.len(),
{
    if order.len() > 0 {
        let earlier = order.drop_last();
        let last = order.last();
        assert(order[order.len() - 1] == last);
        assert(order.contains(last));
        assert forall|a: RamAddress| #[trigger] earlier.contains(a) implies order.contains(a) && a
            != last by {
            let i = choose|i: int| 0 <= i < earlier.len() && earlier[i] == a;
            assert(order[i] == a);
        }
        lemma_no_pair_yet(analysis, regs, earlier, pair, met);
        lemma_pair_kept(analysis, regs, earlier, met);
    }
}

/// The result tells of a buffer of a register that receives, if `is_rx`, or of one without a pair:
/// the buffer is read before it is written, and was not in use before unless the register receives.
pub open spec fn tells(r: ResultModel, is_rx: bool) -> bool {
    r.access_state is ReadBeforeWrite && (is_rx || r.init_state is Uninitialized
        || r.init_state is Pattern)
}

/// The number of bytes that a buffer can be long: those without a write, or those of the pattern.
pub open spec fn size_limit(state: InitializationState) -> int {
    match state {
        InitializationState::Uninitialized { len, .. } => len as int,
        InitializationState::Pattern { at_config, .. } => at_config.pattern_len
            * at_config.repetitions,
        InitializationState::Used { .. } => u64::MAX as int,
    }
}

/// The buffers that results tell of are all there, each with the least of the sizes that a result
/// sets as its greatest size, and one as its least size; there are no others. The pointer and the
/// access of the first of these results are kept.
pub proof fn lemma_buffers_exactly(
    t: TraceModel,
    r: MmioAddress,
    results: Seq<ResultModel>,
    is_rx: bool,
    n: int,
)
    requires
        0 <= n <= results.len(),
        forall|i: int|
            0 <= i < results.len() ==> 0 <= size_limit((#[trigger] results[i]).init_state)
                <= u64::MAX,
    ensures
        match buffers_of(t, r, results, is_rx, n) {
            Some(buffers) => {
                &&& buffers.mmio_address == r
                &&& forall|i: int|
                    0 <= i < n && tells(#[trigger] results[i], is_rx) ==> {
                        let a = results[i].mmio_access.access.value;
                        &&& buffers.known_sizes.contains_key(a)
                        &&& buffers.known_sizes[a].min == 1
                        &&& buffers.known_sizes[a].max <= size_limit(results[i].init_state)
                    }
                &&& forall|a: RamAddress| #[trigger]
                    buffers.known_sizes.contains_key(a) ==> exists|i: int|
                        0 <= i < n && tells(#[trigger] results[i], is_rx)
                            && results[i].mmio_access.access.value == a
                            && buffers.known_sizes[a].max == size_limit(results[i].init_state)
                &&& exists|i: int|
                    0 <= i < n && tells(#[trigger] results[i], is_rx) && (forall|j: int|
                        0 <= j < i ==> !tells(#[trigger] results[j], is_rx)) && buffers.config_pc
                        == results[i].mmio_access.access.pc && buffers.access_pc
                        == t.events[results[i].access_state->ReadBeforeWrite_read_time as int].access().pc
            },
            None => forall|i: int| 0 <= i < n ==> !tells(#[trigger] results[i], is_rx),
        },
    decreases n,
{
    if n > 0 {
        lemma_buffers_exactly(t, r, results, is_rx, n - 1);
        let last = results[n - 1];
        if tells(last, is_rx) {
            let before = buffers_of(t, r, results, is_rx, n - 1);
            let after = buffers_of(t, r, results, is_rx, n)->0;
            let b = last.mmio_access.access.value;
            assert(size_limit(last.init_state) <= u64::MAX);
            if before is Some {
                let old_sizes = before->0.known_sizes;
                assert(old_sizes.contains_key(b) ==> old_sizes[b].min == 1);
                assert forall|a: RamAddress| #[trigger]
                    after.known_sizes.contains_key(a) implies exists|i: int|
                    0 <= i < n && tells(#[trigger] results[i], is_rx)
                        && results[i].mmio_access.access.value == a && after.known_sizes[a].max
                        == size_limit(results[i].init_state) by {
                    if a == b && (!old_sizes.contains_key(b) || size_limit(last.init_state)
                        < old_sizes[b].max) {
                        assert(tells(results[n - 1], is_rx));
                    } else {
                        let i = choose|i: int|
                            0 <= i < n - 1 && tells(#[trigger] results[i], is_rx)
                                && results[i].mmio_access.access.value == a && old_sizes[a].max
                                == size_limit(results[i].init_state);
                        assert(tells(results[i], is_rx));
                    }
                }
            } else {
                assert(tells(results[n - 1], is_rx));
            }
        }
    }
}

/// A register that holds pointers has a candidate exactly where it does not send in a pair, none of
/// its buffers was in use before unless it receives in a pair, and some result tells of a buffer.
pub proof fn lemma_candidate_exactly(
    t: TraceModel,
    r: MmioAddress,
    results: Seq<ResultModel>,
    pairs: Map<MmioAddress, RxTxPair>,
)
    requires
        forall|i: int|
            0 <= i < results.len() ==> 0 <= size_limit((#[trigger] results[i]).init_state)
                <= u64::MAX,
    ensures
        ({
            let is_rx = pairs.contains_key(r) && pairs[r].rx_reg == r;
            let is_tx = pairs.contains_key(r) && pairs[r].tx_reg == r;
            candidate_of(t, r, results, pairs) is Some <==> {
                &&& !is_tx
                &&& is_rx || forall|i: int|
                    0 <= i < results.len() ==> !((#[trigger] results[i]).init_state is Used)
                &&& exists|i: int| 0 <= i < results.len() && tells(#[trigger] results[i], is_rx)
            }
        }),
        candidate_of(t, r, results, pairs) is Some ==> candidate_of(t, r, results, pairs)
            == buffers_of(
            t,
            r,
            results,
            pairs.contains_key(r) && pairs[r].rx_reg == r,
            results.len() as int,
        ),
{
    let is_rx = pairs.contains_key(r) && pairs[r].rx_reg == r;
    lemma_buffers_exactly(t, r, results, is_rx, results.len() as int);
}

/// What is found out about the writes of pointers to a register: each is looked at from its own
/// position to that of the next write to the register for accesses to its buffer, and from the last
/// earlier write of the same pointer, or from the start of the trace, to its own position for the
/// initialisation of its buffer.
pub proof fn lemma_result_windows(
    t: TraceModel,
    writes: Seq<AccessHistEntry>,
    guessing: bool,
    i: int,
)
    requires
        register_results(t, writes, guessing) is Some,
        0 <= i < writes.len(),
    ensures
        ({
            let results = register_results(t, writes, guessing)->0;
            let result = results[i];
            let value = writes[i].access.value;
            let prev = result.trace_range.prev_id;
            let curr = result.trace_range.curr_id;
            let next = result.trace_range.next_id;
            &&& results.len() == writes.len()
            &&& result.mmio_access == writes[i]
            &&& curr == writes[i].trace_ind
            &&& next == if i + 1 < writes.len() {
                writes[i + 1].trace_ind
            } else {
                TraceId::MAX
            }
            &&& {
                ||| prev == 0 && forall|j: int|
                    0 <= j < i ==> (#[trigger] writes[j]).access.value != value
                ||| exists|k: int|
                    0 <= k < i && (#[trigger] writes[k]).access.value == value && prev
                        == writes[k].trace_ind && forall|j: int|
                        k < j < i ==> (#[trigger] writes[j]).access.value != value
            }
            &&& init_state(t, value, prev, curr, 0x800) == Some(result.init_state)
            &&& access_state(t, value, TimeRange::between(curr, next)) == Some(result.access_state)
            &&& result.raw_type_guess is Some <==> guessing
        }),
{
    assert(result_at(t, writes, i, guessing) is Some);
    let p = writes_value(writes, writes[i].access.value);
    lemma_last_before(i, p);
    match last_before(i, p) {
        Some(k) => {
            assert(p(k));
            assert forall|j: int| k < j < i implies (#[trigger] writes[j]).access.value
                != writes[i].access.value by {
                assert(!p(j));
            }
        },
        None => {
            assert forall|j: int| 0 <= j < i implies (#[trigger] writes[j]).access.value
                != writes[i].access.value by {
                assert(!p(j));
            }
        },
    }
}

} // verus!
