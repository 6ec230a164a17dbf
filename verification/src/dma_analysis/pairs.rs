//! Pairs of registers that take turns with one buffer.
//!
//! A buffer that is used to receive and to send is not initialised before each transaction. Where
//! two registers are given the same buffer over and over again, the one whose buffer is read sooner
//! after it was configured receives, and the one whose buffer was written more recently before it
//! was configured sends.

use super::result::{result_views, results_by_key, AccessAnalysisResult, ResultModel};
use super::types::{is_trivial, is_trivial_value, AccessState, InitializationState, RxTxPair};
use crate::common::{MmioAddress, RamAddress, TraceId};
use crate::tables::{
    enumerates, map_contains, map_get, map_insert, map_keys, map_remove, set_contains, set_elements,
    set_insert,
};
use fxhash::{FxHashMap, FxHashSet};
use vstd::prelude::*;

verus! {

broadcast use vstd::std_specs::hash::group_hash_axioms;

/// `itertools::min`: none for no values, else one of the values that none of them is below.
#[verifier::external_body]
fn min_of(values: Vec<TraceId>) -> (res: Option<TraceId>)
    ensures
        res is None <==> values@.len() == 0,
        res matches Some(m) ==> values@.contains(m) && forall|i: int|
            0 <= i < values@.len() ==> m <= #[trigger] values@[i],
{
    itertools::min(values)
}

/// `itertools::max`: none for no values, else one of the values that none of them is above.
#[verifier::external_body]
fn max_of(values: Vec<TraceId>) -> (res: Option<TraceId>)
    ensures
        res is None <==> values@.len() == 0,
        res matches Some(m) ==> values@.contains(m) && forall|i: int|
            0 <= i < values@.len() ==> m >= #[trigger] values@[i],
{
    itertools::max(values)
}

/// The time from configuring a buffer to the first read of it.
pub open spec fn read_offset(r: ResultModel) -> TraceId {
    match r.access_state {
        AccessState::ReadBeforeWrite { read_time, .. } => (read_time - r.mmio_access.trace_ind)
            as TraceId,
        _ => TraceId::MAX,
    }
}

/// The latest write to a buffer that tells something: not one that initialised it.
pub open spec fn telling_write(state: InitializationState) -> Option<TraceId> {
    match state {
        InitializationState::Pattern { latest_write_ind, at_config, .. } => if is_trivial_value(
            at_config.value,
        ) {
            None
        } else {
            latest_write_ind
        },
        InitializationState::Used { latest_write_ind, .. } => latest_write_ind,
        InitializationState::Uninitialized { .. } => None,
    }
}

/// The time from the latest telling write to a buffer to its configuration.
pub open spec fn write_offset(r: ResultModel) -> TraceId {
    match telling_write(r.init_state) {
        Some(ind) => (r.mmio_access.trace_ind - ind) as TraceId,
        None => TraceId::MAX,
    }
}

/// The read comes after the configuration, and the write before it.
pub open spec fn offsets_ok(r: ResultModel) -> bool {
    &&& r.access_state matches AccessState::ReadBeforeWrite { read_time, .. }
        ==> r.mmio_access.trace_ind <= read_time
    &&& telling_write(r.init_state) matches Some(ind) ==> ind <= r.mmio_access.trace_ind
}

/// All of the results have offsets.
pub open spec fn all_offsets_ok(results: Seq<ResultModel>) -> bool {
    forall|i: int| 0 <= i < results.len() ==> offsets_ok(#[trigger] results[i])
}

/// The shortest time from configuring a buffer of a register to the first read of it.
pub open spec fn least_read_offset(results: Seq<ResultModel>) -> TraceId
    decreases results.len(),
{
    if results.len() == 0 {
        TraceId::MAX
    } else {
        let rest = least_read_offset(results.drop_last());
        let last = read_offset(results.last());
        if last < rest {
            last
        } else {
            rest
        }
    }
}

/// The longest time from the latest telling write to a buffer of a register to its configuration.
pub open spec fn greatest_write_offset(results: Seq<ResultModel>) -> TraceId
    decreases results.len(),
{
    if results.len() == 0 {
        0
    } else {
        let rest = greatest_write_offset(results.drop_last());
        let last = write_offset(results.last());
        if last > rest {
            last
        } else {
            rest
        }
    }
}

/// The two registers are the only ones with that buffer, both were configured repeatedly, the
/// buffer of `rx` is read sooner after it was configured, and the buffer of `tx` was written more
/// recently before it was configured, or neither was written.
pub open spec fn decided(
    analysis: Map<MmioAddress, Seq<ResultModel>>,
    regs: Set<MmioAddress>,
    rx: MmioAddress,
    tx: MmioAddress,
) -> bool {
    let rx_results = analysis[rx];
    let tx_results = analysis[tx];
    &&& regs == Set::<MmioAddress>::empty().insert(rx).insert(tx)
    &&& rx != tx
    &&& rx_results.len() > 1
    &&& tx_results.len() > 1
    &&& least_read_offset(rx_results) < least_read_offset(tx_results)
    &&& greatest_write_offset(tx_results) < greatest_write_offset(rx_results) || (
    greatest_write_offset(tx_results) == TraceId::MAX && greatest_write_offset(rx_results)
        == TraceId::MAX)
}

/// The pair of registers of a buffer, where it can be told which of them receives.
pub open spec fn pair_of(
    analysis: Map<MmioAddress, Seq<ResultModel>>,
    ram_addr: RamAddress,
    regs: Set<MmioAddress>,
) -> Option<RxTxPair> {
    if exists|rx: MmioAddress, tx: MmioAddress| decided(analysis, regs, rx, tx) {
        let (rx_reg, tx_reg) = choose|rx: MmioAddress, tx: MmioAddress|
            decided(analysis, regs, rx, tx);
        Some(RxTxPair { ram_addr, rx_reg, tx_reg })
    } else {
        None
    }
}

/// It can be told in one way only which of the registers receives.
pub proof fn lemma_decided_once(
    analysis: Map<MmioAddress, Seq<ResultModel>>,
    regs: Set<MmioAddress>,
    rx: MmioAddress,
    tx: MmioAddress,
    ram_addr: RamAddress,
)
    requires
        decided(analysis, regs, rx, tx),
    ensures
        pair_of(analysis, ram_addr, regs) == Some(RxTxPair { ram_addr, rx_reg: rx, tx_reg: tx }),
{
    let (a, b) = choose|a: MmioAddress, b: MmioAddress| decided(analysis, regs, a, b);
    assert(decided(analysis, regs, a, b));
    assert(regs.contains(rx) && regs.contains(tx));
    assert(regs.contains(a) && regs.contains(b));
}

/// The pairs so far, by register, and the registers that turned up in more than one pair.
pub struct PairState {
    pub pairs: Map<MmioAddress, RxTxPair>,
    pub colliding: Set<MmioAddress>,
}

impl PairState {
    /// One more pair. Registers that turn up again lose their pairs, and get none any more.
    pub open spec fn with_pair(self, pair: RxTxPair) -> PairState {
        let rx = pair.rx_reg;
        let tx = pair.tx_reg;
        if self.colliding.contains(rx) || self.colliding.contains(tx) {
            self
        } else if self.pairs.contains_key(rx) || self.pairs.contains_key(tx) {
            PairState {
                pairs: self.pairs.remove(rx).remove(tx),
                colliding: self.colliding.insert(rx).insert(tx),
            }
        } else {
            PairState { pairs: self.pairs.insert(rx, pair).insert(tx, pair), ..self }
        }
    }
}

/// The pairs of the buffers in `order`.
pub open spec fn pairs_in_order(
    analysis: Map<MmioAddress, Seq<ResultModel>>,
    regs: Map<RamAddress, Set<MmioAddress>>,
    order: Seq<RamAddress>,
) -> PairState
    decreases order.len(),
{
    if order.len() == 0 {
        PairState { pairs: Map::empty(), colliding: Set::empty() }
    } else {
        let before = pairs_in_order(analysis, regs, order.drop_last());
        match pair_of(analysis, order.last(), regs[order.last()]) {
            Some(pair) => before.with_pair(pair),
            None => before,
        }
    }
}

/// Every pair stands under one of its registers, and is the pair of its buffer.
pub proof fn lemma_pairs_are_decided(
    analysis: Map<MmioAddress, Seq<ResultModel>>,
    regs: Map<RamAddress, Set<MmioAddress>>,
    order: Seq<RamAddress>,
)
    ensures
        forall|r: MmioAddress| #[trigger]
            pairs_in_order(analysis, regs, order).pairs.contains_key(r) ==> {
                let pair = pairs_in_order(analysis, regs, order).pairs[r];
                &&& r == pair.rx_reg || r == pair.tx_reg
                &&& order.contains(pair.ram_addr)
                &&& decided(analysis, regs[pair.ram_addr], pair.rx_reg, pair.tx_reg)
            },
    decreases order.len(),
{
    if order.len() > 0 {
        let earlier = order.drop_last();
        lemma_pairs_are_decided(analysis, regs, earlier);
        let before = pairs_in_order(analysis, regs, earlier).pairs;
        let after = pairs_in_order(analysis, regs, order).pairs;
        assert(order.contains(order.last()));
        assert forall|r: MmioAddress| #[trigger] after.contains_key(r) implies {
            let pair = after[r];
            &&& r == pair.rx_reg || r == pair.tx_reg
            &&& order.contains(pair.ram_addr)
            &&& decided(analysis, regs[pair.ram_addr], pair.rx_reg, pair.tx_reg)
        } by {
            if before.contains_key(r) && after[r] == before[r] {
                let i = choose|i: int|
                    0 <= i < earlier.len() && earlier[i] == before[r].ram_addr;
                assert(order[i] == before[r].ram_addr);
            }
        }
    }
}

/// No register turns up in the pairs of two buffers.
pub open spec fn pairs_disjoint(
    analysis: Map<MmioAddress, Seq<ResultModel>>,
    regs: Map<RamAddress, Set<MmioAddress>>,
) -> bool {
    forall|a: RamAddress, b: RamAddress|
        #![trigger pair_of(analysis, a, regs[a]), pair_of(analysis, b, regs[b])]
        a != b && regs.contains_key(a) && regs.contains_key(b) && pair_of(
            analysis,
            a,
            regs[a],
        ) is Some && pair_of(analysis, b, regs[b]) is Some ==> regs[a].disjoint(regs[b])
}

/// Where no register turns up in the pairs of two buffers, both registers of every pair have it,
/// in whichever order the buffers are looked at.
pub proof fn lemma_pairs_without_collisions(
    analysis: Map<MmioAddress, Seq<ResultModel>>,
    regs: Map<RamAddress, Set<MmioAddress>>,
    order: Seq<RamAddress>,
)
    requires
        pairs_disjoint(analysis, regs),
        order.no_duplicates(),
        order.to_set().subset_of(regs.dom()),
    ensures
        pairs_in_order(analysis, regs, order).colliding == Set::<MmioAddress>::empty(),
        forall|a: RamAddress|
            #![trigger pair_of(analysis, a, regs[a])]
            order.contains(a) ==> (pair_of(analysis, a, regs[a]) matches Some(pair) ==> {
                let pairs = pairs_in_order(analysis, regs, order).pairs;
                &&& pairs.contains_key(pair.rx_reg) && pairs[pair.rx_reg] == pair
                &&& pairs.contains_key(pair.tx_reg) && pairs[pair.tx_reg] == pair
            }),
    decreases order.len(),
{
    if order.len() > 0 {
        let earlier = order.drop_last();
        let last = order.last();
        assert(earlier.no_duplicates());
        assert forall|a: RamAddress| earlier.to_set().contains(a) implies regs.contains_key(a) by {
            let i = choose|i: int| 0 <= i < earlier.len() && earlier[i] == a;
            assert(order[i] == a);
            assert(order.to_set().contains(a));
        }
        lemma_pairs_without_collisions(analysis, regs, earlier);
        lemma_pairs_are_decided(analysis, regs, earlier);
        let before = pairs_in_order(analysis, regs, earlier);
        assert(order.to_set().contains(last));
        if let Some(pair) = pair_of(analysis, last, regs[last]) {
            assert(decided(analysis, regs[last], pair.rx_reg, pair.tx_reg));
            assert forall|r: MmioAddress| before.pairs.contains_key(r) implies !regs[last].contains(
                r,
            ) by {
                let other = before.pairs[r];
                let a = other.ram_addr;
                let i = choose|i: int| 0 <= i < earlier.len() && earlier[i] == a;
                assert(order[i] == a);
                assert(a != last);
                assert(order.to_set().contains(a));
                lemma_decided_once(analysis, regs[a], other.rx_reg, other.tx_reg, a);
                assert(regs[a].contains(r));
                assert(regs[a].disjoint(regs[last]));
            }
            assert(regs[last].contains(pair.rx_reg) && regs[last].contains(pair.tx_reg));
        }
        assert forall|a: RamAddress|
            #![trigger pair_of(analysis, a, regs[a])]
            order.contains(a) implies (pair_of(analysis, a, regs[a]) matches Some(pair) ==> {
            let pairs = pairs_in_order(analysis, regs, order).pairs;
            &&& pairs.contains_key(pair.rx_reg) && pairs[pair.rx_reg] == pair
            &&& pairs.contains_key(pair.tx_reg) && pairs[pair.tx_reg] == pair
        }) by {
            if a != last {
                let i = choose|i: int| 0 <= i < order.len() && order[i] == a;
                assert(earlier[i] == a);
                assert(earlier.contains(a));
            }
        }
    }
}

proof fn lemma_least_read_offset(results: Seq<ResultModel>)
    ensures
        forall|i: int|
            0 <= i < results.len() ==> least_read_offset(results) <= read_offset(
                #[trigger] results[i],
            ),
        results.len() > 0 ==> exists|i: int|
            0 <= i < results.len() && least_read_offset(results) == read_offset(
                #[trigger] results[i],
            ),
    decreases results.len(),
{
    if results.len() > 0 {
        let rest = results.drop_last();
        lemma_least_read_offset(rest);
        assert forall|i: int| 0 <= i < results.len() implies least_read_offset(results)
            <= read_offset(#[trigger] results[i]) by {
            if i < rest.len() {
                assert(rest[i] == results[i]);
            }
        }
        if read_offset(results.last()) <= least_read_offset(rest) {
            assert(results[results.len() - 1] == results.last());
        } else {
            let i = choose|i: int|
                0 <= i < rest.len() && least_read_offset(rest) == read_offset(#[trigger] rest[i]);
            assert(results[i] == rest[i]);
        }
    }
}

proof fn lemma_greatest_write_offset(results: Seq<ResultModel>)
    ensures
        forall|i: int|
            0 <= i < results.len() ==> greatest_write_offset(results) >= write_offset(
                #[trigger] results[i],
            ),
        results.len() > 0 ==> exists|i: int|
            0 <= i < results.len() && greatest_write_offset(results) == write_offset(
                #[trigger] results[i],
            ),
    decreases results.len(),
{
    if results.len() > 0 {
        let rest = results.drop_last();
        lemma_greatest_write_offset(rest);
        assert forall|i: int| 0 <= i < results.len() implies greatest_write_offset(results)
            >= write_offset(#[trigger] results[i]) by {
            if i < rest.len() {
                assert(rest[i] == results[i]);
            }
        }
        if write_offset(results.last()) >= greatest_write_offset(rest) {
            assert(results[results.len() - 1] == results.last());
        } else {
            let i = choose|i: int|
                0 <= i < rest.len() && greatest_write_offset(rest) == write_offset(
                    #[trigger] rest[i],
                );
            assert(results[i] == rest[i]);
        }
    }
}

/// The shortest time from configuring a buffer of a register to the first read of it.
fn get_min_read_offset(results: &Vec<AccessAnalysisResult>) -> (res: TraceId)
    requires
        all_offsets_ok(result_views(results@)),
    ensures
        res == least_read_offset(result_views(results@)),
{
    let ghost views = result_views(results@);
    let mut offsets: Vec<TraceId> = Vec::new();
    let mut i: usize = 0;
    while i < results.len()
        invariant
            i <= results@.len(),
            views == result_views(results@),
            all_offsets_ok(views),
            offsets@.len() == i,
            forall|j: int| 0 <= j < i ==> #[trigger] offsets@[j] == read_offset(views[j]),
        decreases results.len() - i,
    {
        assert(offsets_ok(views[i as int]));
        let result = &results[i];
        offsets.push(
            match result.access_state {
                AccessState::ReadBeforeWrite { read_time, .. } => read_time
                    - result.mmio_access.trace_ind,
                _ => TraceId::MAX,
            },
        );
        i += 1;
    }
    let ghost values = offsets@;
    let res = match min_of(offsets) {
        Some(offset) => offset,
        None => TraceId::MAX,
    };
    proof {
        lemma_least_read_offset(views);
        if views.len() > 0 {
            let j = choose|j: int|
                0 <= j < views.len() && least_read_offset(views) == read_offset(
                    #[trigger] views[j],
                );
            assert(values[j] >= res);
            let k = choose|k: int| 0 <= k < values.len() && values[k] == res;
            assert(read_offset(views[k]) == res);
        }
    }
    res
}

/// The longest time from the latest telling write to a buffer of a register to its configuration.
fn get_max_write_offset(results: &Vec<AccessAnalysisResult>) -> (res: TraceId)
    requires
        all_offsets_ok(result_views(results@)),
        results@.len() > 0,
    ensures
        res == greatest_write_offset(result_views(results@)),
{
    let ghost views = result_views(results@);
    let mut offsets: Vec<TraceId> = Vec::new();
    let mut i: usize = 0;
    while i < results.len()
        invariant
            i <= results@.len(),
            views == result_views(results@),
            all_offsets_ok(views),
            offsets@.len() == i,
            forall|j: int| 0 <= j < i ==> #[trigger] offsets@[j] == write_offset(views[j]),
        decreases results.len() - i,
    {
        assert(offsets_ok(views[i as int]));
        let result = &results[i];
        let latest_write_ind = match result.init_state {
            InitializationState::Pattern { latest_write_ind, at_config, .. } => if is_trivial(
                at_config.value,
            ) {
                None
            } else {
                latest_write_ind
            },
            InitializationState::Used { latest_write_ind, .. } => latest_write_ind,
            InitializationState::Uninitialized { .. } => None,
        };
        offsets.push(
            match latest_write_ind {
                Some(ind) => result.mmio_access.trace_ind - ind,
                None => TraceId::MAX,
            },
        );
        i += 1;
    }
    let ghost values = offsets@;
    let res = match max_of(offsets) {
        Some(offset) => offset,
        None => TraceId::MAX,
    };
    proof {
        lemma_greatest_write_offset(views);
        let j = choose|j: int|
            0 <= j < views.len() && greatest_write_offset(views) == write_offset(
                #[trigger] views[j],
            );
        assert(values[j] <= res);
        let k = choose|k: int| 0 <= k < values.len() && values[k] == res;
        assert(write_offset(views[k]) == res);
    }
    res
}

/// The registers of each buffer.
pub open spec fn set_views(m: Map<RamAddress, FxHashSet<MmioAddress>>) -> Map<
    RamAddress,
    Set<MmioAddress>,
> {
    m.map_values(|s: FxHashSet<MmioAddress>| s@)
}

/// Where two registers share a buffer, both were analysed, and their results have offsets if both
/// were configured repeatedly.
pub open spec fn comparable(
    analysis: Map<MmioAddress, Seq<ResultModel>>,
    regs: Set<MmioAddress>,
) -> bool {
    forall|a: MmioAddress, b: MmioAddress|
        #![trigger regs.contains(a), regs.contains(b)]
        a != b && regs == Set::<MmioAddress>::empty().insert(a).insert(b) ==> {
            &&& analysis.contains_key(a)
            &&& analysis.contains_key(b)
            &&& analysis[a].len() > 1 && analysis[b].len() > 1 ==> all_offsets_ok(analysis[a])
                && all_offsets_ok(analysis[b])
        }
}

/// The registers of every buffer can be compared.
pub open spec fn all_comparable(
    analysis: Map<MmioAddress, Seq<ResultModel>>,
    regs: Map<RamAddress, Set<MmioAddress>>,
) -> bool {
    forall|a: RamAddress| #[trigger] regs.contains_key(a) ==> comparable(analysis, regs[a])
}

/// Finds out which of the registers of a buffer receives and which one sends.
fn decide_pair(
    analysis_by_mmio_addr: &FxHashMap<MmioAddress, Vec<AccessAnalysisResult>>,
    ram_addr: RamAddress,
    mmio_addrs: &FxHashSet<MmioAddress>,
) -> (res: Option<RxTxPair>)
    requires
        comparable(results_by_key(analysis_by_mmio_addr@), mmio_addrs@),
    ensures
        res == pair_of(results_by_key(analysis_by_mmio_addr@), ram_addr, mmio_addrs@),
{
    let ghost analysis = results_by_key(analysis_by_mmio_addr@);
    let ghost regs = mmio_addrs@;
    let elements = set_elements(mmio_addrs);
    proof {
        assert forall|rx: MmioAddress, tx: MmioAddress| decided(
            analysis,
            regs,
            rx,
            tx,
        ) implies elements@.len() == 2 by {
            elements@.unique_seq_to_set();
            vstd::set_lib::lemma_set_empty_equivalency_len(Set::<MmioAddress>::empty());
            assert(regs.len() == 2);
        }
    }
    if elements.len() != 2 {
        return None;
    }
    let reg_1 = elements[0];
    let reg_2 = elements[1];
    proof {
        assert(elements@ =~= seq![reg_1, reg_2]);
        assert(elements@.contains(reg_1) && elements@.contains(reg_2));
        assert forall|r: MmioAddress| regs.contains(r) <==> (r == reg_1 || r == reg_2) by {
            assert(elements@.to_set().contains(r) <==> elements@.contains(r));
        }
        assert(regs =~= Set::<MmioAddress>::empty().insert(reg_1).insert(reg_2));
        assert(regs =~= Set::<MmioAddress>::empty().insert(reg_2).insert(reg_1));
        assert(regs.contains(reg_1) && regs.contains(reg_2));
    }
    let results_1 = map_get(analysis_by_mmio_addr, &reg_1).unwrap();
    let results_2 = map_get(analysis_by_mmio_addr, &reg_2).unwrap();
    assert(analysis[reg_1] == result_views(results_1@));
    assert(analysis[reg_2] == result_views(results_2@));
    proof {
        assert forall|rx: MmioAddress, tx: MmioAddress| decided(analysis, regs, rx, tx) implies (rx
            == reg_1 && tx == reg_2) || (rx == reg_2 && tx == reg_1) by {
            assert(regs.contains(rx) && regs.contains(tx));
        }
    }
    if results_1.len() <= 1 || results_2.len() <= 1 {
        return None;
    }
    let min_read_offset_1 = get_min_read_offset(results_1);
    let min_read_offset_2 = get_min_read_offset(results_2);
    let max_write_offset_1 = get_max_write_offset(results_1);
    let max_write_offset_2 = get_max_write_offset(results_2);
    let has_no_writes = max_write_offset_1 == TraceId::MAX && max_write_offset_2 == TraceId::MAX;
    if (max_write_offset_2 < max_write_offset_1 || has_no_writes) && min_read_offset_1
        < min_read_offset_2 {
        proof {
            assert(decided(analysis, regs, reg_1, reg_2));
            lemma_decided_once(analysis, regs, reg_1, reg_2, ram_addr);
        }
        Some(RxTxPair { ram_addr, rx_reg: reg_1, tx_reg: reg_2 })
    } else if (max_write_offset_1 < max_write_offset_2 || has_no_writes) && min_read_offset_2
        < min_read_offset_1 {
        proof {
            assert(decided(analysis, regs, reg_2, reg_1));
            lemma_decided_once(analysis, regs, reg_2, reg_1, ram_addr);
        }
        Some(RxTxPair { ram_addr, rx_reg: reg_2, tx_reg: reg_1 })
    } else {
        None
    }
}

/// Finds the pairs of registers that share a buffer, looking at the buffers in the given order.
pub fn find_rx_tx_pairs_in_order(
    analysis_by_mmio_addr: &FxHashMap<MmioAddress, Vec<AccessAnalysisResult>>,
    mmio_addrs_by_buf_addr: &FxHashMap<RamAddress, FxHashSet<MmioAddress>>,
    order: &Vec<RamAddress>,
) -> (res: FxHashMap<MmioAddress, RxTxPair>)
    requires
        order@.to_set().subset_of(mmio_addrs_by_buf_addr@.dom()),
        all_comparable(
            results_by_key(analysis_by_mmio_addr@),
            set_views(mmio_addrs_by_buf_addr@),
        ),
    ensures
        res@ == pairs_in_order(
            results_by_key(analysis_by_mmio_addr@),
            set_views(mmio_addrs_by_buf_addr@),
            order@,
        ).pairs,
{
    let ghost analysis = results_by_key(analysis_by_mmio_addr@);
    let ghost regs = set_views(mmio_addrs_by_buf_addr@);
    let mut res: FxHashMap<MmioAddress, RxTxPair> = FxHashMap::default();
    let mut colliding_mmio_addrs: FxHashSet<MmioAddress> = FxHashSet::default();
    let mut i: usize = 0;
    assert(order@.take(0) =~= Seq::empty());
    while i < order.len()
        invariant
            analysis == results_by_key(analysis_by_mmio_addr@),
            regs == set_views(mmio_addrs_by_buf_addr@),
            order@.to_set().subset_of(mmio_addrs_by_buf_addr@.dom()),
            all_comparable(analysis, regs),
            i <= order@.len(),
            pairs_in_order(analysis, regs, order@.take(i as int)) == (PairState {
                pairs: res@,
                colliding: colliding_mmio_addrs@,
            }),
        decreases order.len() - i,
    {
        let ram_addr = order[i];
        proof {
            assert(order@.to_set().contains(ram_addr));
            assert(order@.take(i + 1).drop_last() =~= order@.take(i as int));
            assert(regs.contains_key(ram_addr));
        }
        let mmio_addrs = map_get(mmio_addrs_by_buf_addr, &ram_addr).unwrap();
        if let Some(pair) = decide_pair(analysis_by_mmio_addr, ram_addr, mmio_addrs) {
            let rx_reg = pair.rx_reg;
            let tx_reg = pair.tx_reg;
            if set_contains(&colliding_mmio_addrs, &rx_reg) || set_contains(
                &colliding_mmio_addrs,
                &tx_reg,
            ) {
            } else if map_contains(&res, &rx_reg) || map_contains(&res, &tx_reg) {
                set_insert(&mut colliding_mmio_addrs, rx_reg);
                set_insert(&mut colliding_mmio_addrs, tx_reg);
                map_remove(&mut res, &rx_reg);
                map_remove(&mut res, &tx_reg);
            } else {
                map_insert(&mut res, rx_reg, pair);
                map_insert(&mut res, tx_reg, pair);
            }
        }
        i += 1;
    }
    assert(order@.take(i as int) =~= order@);
    res
}

/// Finds the pairs of registers that share a buffer, looking at the buffers in an order that is
/// left open.
pub fn find_rx_tx_pairs(
    analysis_by_mmio_addr: &FxHashMap<MmioAddress, Vec<AccessAnalysisResult>>,
    mmio_addrs_by_buf_addr: &FxHashMap<RamAddress, FxHashSet<MmioAddress>>,
) -> (res: FxHashMap<MmioAddress, RxTxPair>)
    requires
        all_comparable(
            results_by_key(analysis_by_mmio_addr@),
            set_views(mmio_addrs_by_buf_addr@),
        ),
    ensures
        exists|order: Seq<RamAddress>| #[trigger]
            enumerates(order, mmio_addrs_by_buf_addr@.dom()) && res@ == pairs_in_order(
                results_by_key(analysis_by_mmio_addr@),
                set_views(mmio_addrs_by_buf_addr@),
                order,
            ).pairs,
{
    let order = map_keys(mmio_addrs_by_buf_addr);
    find_rx_tx_pairs_in_order(analysis_by_mmio_addr, mmio_addrs_by_buf_addr, &order)
}

} // verus!
