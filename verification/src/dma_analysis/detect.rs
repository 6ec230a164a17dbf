//! The analysis of a whole trace.

use super::candidates::{
    candidate_of, candidates, find_candidate, lemma_buffers, lemma_results_ok, receives, results_ok,
    sends, tells_of_buffer,
};
use super::merge::{regular, PointerModel, PointerType};
use super::pairs::{
    all_comparable, all_offsets_ok, comparable, find_rx_tx_pairs, pairs_in_order, set_views,
};
use super::register_analysis::{
    analyze_register, has_used, lemma_register_guess_regular, lemma_register_offsets, merged_guess,
    register_results, result_at, RegisterAnalysis,
};
use super::registers::{
    classify_registers, counterexamples_in_order, holds_pointers, memory_pointer_writes,
    misaligned_writes, register_pointer_holders, registers_in_reach, RegisterClasses,
};
use super::result::{result_views, results_by_key, AccessAnalysisResult, ResultModel};
use super::trace_info::{in_address_space, mmio_writes, supported_trace, TraceInfo, TraceModel};
use super::type_info::pointer_of;
use super::types::{AccessHistEntry, BufModel, DmaBufMeta, InitializationStateProfile, RxTxPair};
use crate::common::{MmioAddress, RamAddress, TraceId};
use crate::dma_snippet::{buf_list_views, buf_views, type_views, DmaAnalysisSnippet, SnippetModel};
use crate::hoedur::bintrace::{AccessTarget, Trace, TraceEvent};
use crate::mem_map::MemoryMap;
use crate::mem_view::recordable;
use crate::tables::{
    enumerates, lemma_take_to_set, lists_values, map_contains, map_get, map_insert, map_keys,
    map_remove, seq_views, set_contains, set_insert,
};
use fxhash::{FxHashMap, FxHashSet};
use vstd::prelude::*;

verus! {

broadcast use vstd::std_specs::hash::group_hash_axioms;

/// What lies behind the pointers of a register is only guessed where it holds no misaligned
/// pointers and no pointers to registers.
pub open spec fn guesses_types(t: TraceModel, r: MmioAddress) -> bool {
    let writes = mmio_writes(t.events);
    &&& !misaligned_writes(t.map, writes).contains_key(r)
    &&& !register_pointer_holders(t.map, writes).contains(r)
}

/// What is found out about each of the writes of pointers to register `r`.
#[verifier::opaque]
pub open spec fn results_of(
    t: TraceModel,
    r: MmioAddress,
    writes: Seq<AccessHistEntry>,
) -> Option<Seq<ResultModel>> {
    register_results(t, writes, guesses_types(t, r))
}

/// Everything that is to be looked at is in reach.
pub open spec fn analysable(
    t: TraceModel,
    writes: Map<MmioAddress, Seq<AccessHistEntry>>,
) -> bool {
    forall|r: MmioAddress| writes.contains_key(r) ==> (#[trigger] results_of(t, r, writes[r])) is Some
}

/// What is found out about the writes of pointers, by register.
pub open spec fn analysis_of(
    t: TraceModel,
    writes: Map<MmioAddress, Seq<AccessHistEntry>>,
) -> Map<MmioAddress, Seq<ResultModel>> {
    Map::new(
        |r: MmioAddress| writes.contains_key(r),
        |r: MmioAddress| results_of(t, r, writes[r])->0,
    )
}

/// The merged guess at what lies behind the pointers of each register.
pub open spec fn types_of(t: TraceModel, writes: Map<MmioAddress, Seq<AccessHistEntry>>) -> Map<
    MmioAddress,
    PointerModel,
> {
    Map::new(
        |r: MmioAddress|
            writes.contains_key(r) && merged_guess(results_of(t, r, writes[r])->0) is Some,
        |r: MmioAddress| merged_guess(results_of(t, r, writes[r])->0)->0,
    )
}

/// One of the writes is a write of `a`.
pub open spec fn writes_pointer(writes: Seq<AccessHistEntry>, a: RamAddress) -> bool {
    exists|i: int| 0 <= i < writes.len() && (#[trigger] writes[i]).access.value == a
}

/// Some register is given `a`.
pub open spec fn is_written(writes: Map<MmioAddress, Seq<AccessHistEntry>>, a: RamAddress) -> bool {
    exists|r: MmioAddress| #[trigger] writes.contains_key(r) && writes_pointer(writes[r], a)
}

/// The registers that are given each buffer.
pub open spec fn registers_by_buffer(
    writes: Map<MmioAddress, Seq<AccessHistEntry>>,
) -> Map<RamAddress, Set<MmioAddress>> {
    Map::new(
        |a: RamAddress| is_written(writes, a),
        |a: RamAddress| writes.dom().filter(|r: MmioAddress| writes_pointer(writes[r], a)),
    )
}

/// The snippet is what is found out about a trace, where registers are looked at in `order` for
/// reasons why they do not hold pointers, and buffers in `pair_order` for pairs of registers.
pub open spec fn found_in(
    t: TraceModel,
    order: Seq<MmioAddress>,
    pair_order: Seq<RamAddress>,
    snippet: SnippetModel,
) -> bool {
    let writes = mmio_writes(t.events);
    let pointer_writes = memory_pointer_writes(t.map, writes);
    let analysis = analysis_of(t, pointer_writes);
    let pairs = pairs_in_order(analysis, registers_by_buffer(pointer_writes), pair_order).pairs;
    let non_pointers = counterexamples_in_order(t.map, writes, order);
    let buffers = candidates(t, analysis, pairs);
    &&& snippet.mmio_pointer_counterexamples == non_pointers
    &&& snippet.misaligned_mmio_writes == misaligned_writes(t.map, writes)
    &&& snippet.analysis_by_mmio_addr == analysis
    &&& snippet.guessed_type_by_mmio_addr == types_of(t, pointer_writes)
    &&& snippet.detected_candidates == buffers.remove_keys(non_pointers.dom())
    &&& lists_values(snippet.discarded_candidates, buffers.restrict(non_pointers.dom()))
    &&& snippet.collided_descriptors.len() == 0
    &&& snippet.ambiguous_candidate_mmio_addrs.len() == 0
    &&& lists_values(snippet.rx_tx_pairs, pairs)
}

/// The snippet is what is found out about a trace. The orders in which registers and buffers are
/// looked at are left open.
pub open spec fn finds(t: TraceModel, snippet: SnippetModel) -> bool {
    let writes = mmio_writes(t.events);
    let buffers = registers_by_buffer(memory_pointer_writes(t.map, writes));
    exists|order: Seq<MmioAddress>, pair_order: Seq<RamAddress>|
        #![trigger enumerates(order, writes.dom()), enumerates(pair_order, buffers.dom())]
        enumerates(order, writes.dom()) && enumerates(pair_order, buffers.dom()) && found_in(
            t,
            order,
            pair_order,
            snippet,
        )
}

/// Every detected register holds pointers only, does not send in its pair, and has buffers of its
/// own, each of which was written to it; every discarded one was shown not to hold pointers.
pub proof fn lemma_detected(
    t: TraceModel,
    order: Seq<MmioAddress>,
    pair_order: Seq<RamAddress>,
    snippet: SnippetModel,
    r: MmioAddress,
)
    requires
        found_in(t, order, pair_order, snippet),
    ensures
        snippet.detected_candidates.contains_key(r) ==> {
            let pointer_writes = memory_pointer_writes(t.map, mmio_writes(t.events));
            let buffers = snippet.detected_candidates[r];
            &&& !snippet.mmio_pointer_counterexamples.contains_key(r)
            &&& holds_pointers(t.map, mmio_writes(t.events), r)
            &&& !sends(
                pairs_in_order(
                    analysis_of(t, pointer_writes),
                    registers_by_buffer(pointer_writes),
                    pair_order,
                ).pairs,
                r,
            )
            &&& buffers.mmio_address == r
            &&& analysable(t, pointer_writes) ==> forall|a: RamAddress| #[trigger]
                buffers.known_sizes.contains_key(a) ==> writes_pointer(pointer_writes[r], a)
        },
        forall|i: int|
            0 <= i < snippet.discarded_candidates.len()
                ==> snippet.mmio_pointer_counterexamples.contains_key(
                (#[trigger] snippet.discarded_candidates[i]).mmio_address,
            ),
{
    let writes = mmio_writes(t.events);
    let pointer_writes = memory_pointer_writes(t.map, writes);
    let analysis = analysis_of(t, pointer_writes);
    let pairs = pairs_in_order(analysis, registers_by_buffer(pointer_writes), pair_order).pairs;
    let non_pointers = counterexamples_in_order(t.map, writes, order);
    let buffers = candidates(t, analysis, pairs);
    assert forall|q: MmioAddress| buffers.contains_key(q) implies {
        let found = #[trigger] buffers[q];
        &&& found.mmio_address == q
        &&& analysable(t, pointer_writes) ==> forall|a: RamAddress| #[trigger]
            found.known_sizes.contains_key(a) ==> writes_pointer(pointer_writes[q], a)
    } by {
        let results = analysis[q];
        let n = results.len() as int;
        lemma_buffers(t, q, results, receives(pairs, q), n);
        if analysable(t, pointer_writes) {
            assert(results_of(t, q, pointer_writes[q]) is Some);
            reveal(results_of);
            assert forall|a: RamAddress| #[trigger]
                buffers[q].known_sizes.contains_key(a) implies writes_pointer(
                pointer_writes[q],
                a,
            ) by {
                let i = choose|i: int|
                    0 <= i < n && (#[trigger] results[i]).mmio_access.access.value == a
                        && tells_of_buffer(results[i], receives(pairs, q));
                assert(result_at(t, pointer_writes[q], i, guesses_types(t, q)) is Some);
                assert(pointer_writes[q][i].access.value == a);
            }
        }
    }
    let discarded = buffers.restrict(non_pointers.dom());
    let listed = choose|listed: Seq<MmioAddress>| #[trigger]
        enumerates(listed, discarded.dom()) && snippet.discarded_candidates == listed.map_values(
            |k: MmioAddress| discarded[k],
        );
    assert forall|i: int|
        0 <= i < snippet.discarded_candidates.len() implies non_pointers.contains_key(
        (#[trigger] snippet.discarded_candidates[i]).mmio_address,
    ) by {
        assert(listed.to_set().contains(listed[i]));
        assert(buffers[listed[i]].mmio_address == listed[i]);
    }
}

/// Every guess at what lies behind a register is regular.
pub proof fn lemma_found_types_regular(
    t: TraceModel,
    order: Seq<MmioAddress>,
    pair_order: Seq<RamAddress>,
    snippet: SnippetModel,
)
    requires
        t.wf(),
        analysable(t, memory_pointer_writes(t.map, mmio_writes(t.events))),
        found_in(t, order, pair_order, snippet),
    ensures
        forall|r: MmioAddress| #[trigger]
            snippet.guessed_type_by_mmio_addr.contains_key(r) ==> regular(
                snippet.guessed_type_by_mmio_addr[r],
            ),
{
    let pointer_writes = memory_pointer_writes(t.map, mmio_writes(t.events));
    assert forall|r: MmioAddress| #[trigger]
        snippet.guessed_type_by_mmio_addr.contains_key(r) implies regular(
        snippet.guessed_type_by_mmio_addr[r],
    ) by {
        assert(results_of(t, r, pointer_writes[r]) is Some);
        reveal(results_of);
        lemma_register_guess_regular(t, pointer_writes[r], guesses_types(t, r));
    }
}

/// Why a trace cannot be analysed.
#[derive(Debug, Clone, Copy, PartialEq, Eq, Structural)]
pub enum DetectError {
    /// The trace has too many events, or an access beyond the address space.
    UnsupportedTrace,
    /// Something that is to be looked at around a pointer is not there.
    OutOfReach,
}

/// What the registers are found to point to.
struct PointerAnalysis {
    by_mmio_addr: FxHashMap<MmioAddress, Vec<AccessAnalysisResult>>,
    by_ram_addr: FxHashMap<RamAddress, FxHashSet<MmioAddress>>,
    guessed_type_by_mmio_addr: FxHashMap<MmioAddress, PointerType>,
    init_profile_by_mmio_addr: FxHashMap<MmioAddress, InitializationStateProfile>,
}

impl PointerAnalysis {
    spec fn describes(
        &self,
        t: TraceModel,
        writes: Map<MmioAddress, Seq<AccessHistEntry>>,
    ) -> bool {
        &&& results_by_key(self.by_mmio_addr@) == analysis_of(t, writes)
        &&& set_views(self.by_ram_addr@) == registers_by_buffer(writes)
        &&& type_views(self.guessed_type_by_mmio_addr@) == types_of(t, writes)
        &&& self.init_profile_by_mmio_addr@.dom() == writes.dom()
        &&& forall|r: MmioAddress| #[trigger]
            writes.contains_key(r) ==> self.init_profile_by_mmio_addr@[r].has_used == has_used(
                results_of(t, r, writes[r])->0,
            )
    }
}

/// Adds `r` to what `m` holds for `a`.
fn insert_at(m: &mut FxHashMap<RamAddress, FxHashSet<MmioAddress>>, a: RamAddress, r: MmioAddress)
    ensures
        set_views(final(m)@) == set_views(old(m)@).insert(
            a,
            (if old(m)@.contains_key(a) {
                set_views(old(m)@)[a]
            } else {
                Set::empty()
            }).insert(r),
        ),
{
    let mut set = match map_remove(m, &a) {
        Some(set) => set,
        None => FxHashSet::default(),
    };
    set_insert(&mut set, r);
    map_insert(m, a, set);
    assert(set_views(m@) =~= set_views(old(m)@).insert(
        a,
        (if old(m)@.contains_key(a) {
            set_views(old(m)@)[a]
        } else {
            Set::empty()
        }).insert(r),
    ));
}

/// Adds register `r` to the registers of each buffer that it is given.
fn add_register(
    m: &mut FxHashMap<RamAddress, FxHashSet<MmioAddress>>,
    r: MmioAddress,
    writes: &Vec<AccessHistEntry>,
    Ghost(before): Ghost<Map<MmioAddress, Seq<AccessHistEntry>>>,
)
    requires
        set_views(old(m)@) == registers_by_buffer(before),
        !before.contains_key(r),
    ensures
        set_views(final(m)@) == registers_by_buffer(before.insert(r, writes@)),
{
    let mut i: usize = 0;
    assert(before.insert(r, writes@.take(0)).dom() =~= before.dom().insert(r));
    proof {
        let now = before.insert(r, writes@.take(0));
        assert forall|a: RamAddress| is_written(before, a) <==> is_written(now, a) by {
            if is_written(before, a) {
                let q = choose|q: MmioAddress| #[trigger]
                    before.contains_key(q) && writes_pointer(before[q], a);
                assert(now.contains_key(q) && now[q] == before[q]);
            }
            if is_written(now, a) {
                let q = choose|q: MmioAddress| #[trigger]
                    now.contains_key(q) && writes_pointer(now[q], a);
                assert(q != r);
                assert(before.contains_key(q));
            }
        }
        assert(registers_by_buffer(now) =~= registers_by_buffer(before)) by {
            assert forall|a: RamAddress| is_written(before, a) implies registers_by_buffer(now)[a]
                =~= registers_by_buffer(before)[a] by {}
        }
    }
    while i < writes.len()
        invariant
            i <= writes@.len(),
            !before.contains_key(r),
            set_views(m@) == registers_by_buffer(before.insert(r, writes@.take(i as int))),
        decreases writes.len() - i,
    {
        let a = writes[i].access.value;
        let ghost old_m = m@;
        insert_at(m, a, r);
        proof {
            lemma_registers_grow(before, r, writes@, i as int);
            assert(old_m.contains_key(a) <==> set_views(old_m).contains_key(a));
        }
        i += 1;
    }
    assert(writes@.take(i as int) =~= writes@);
}

/// The registers of each buffer with one more write.
proof fn lemma_registers_grow(
    before: Map<MmioAddress, Seq<AccessHistEntry>>,
    r: MmioAddress,
    writes: Seq<AccessHistEntry>,
    i: int,
)
    requires
        0 <= i < writes.len(),
        !before.contains_key(r),
    ensures
        ({
            let a = writes[i].access.value;
            let m = registers_by_buffer(before.insert(r, writes.take(i)));
            registers_by_buffer(before.insert(r, writes.take(i + 1))) == m.insert(
                a,
                (if m.contains_key(a) {
                    m[a]
                } else {
                    Set::empty()
                }).insert(r),
            )
        }),
{
    let a = writes[i].access.value;
    let now = before.insert(r, writes.take(i));
    let more = before.insert(r, writes.take(i + 1));
    let m = registers_by_buffer(now);
    let wanted = m.insert(
        a,
        (if m.contains_key(a) {
            m[a]
        } else {
            Set::empty()
        }).insert(r),
    );
    let got = registers_by_buffer(more);
    assert(now.dom() =~= more.dom());
    assert forall|b: RamAddress, q: MmioAddress| more.contains_key(q) implies (writes_pointer(
        more[q],
        b,
    ) <==> (writes_pointer(now[q], b) || (q == r && b == a))) by {
        if q == r {
            assert(more[q] == writes.take(i + 1));
            assert(now[q] == writes.take(i));
            if writes_pointer(more[q], b) {
                let j = choose|j: int|
                    0 <= j < more[q].len() && (#[trigger] more[q][j]).access.value == b;
                if j < i {
                    assert(now[q][j].access.value == b);
                }
            }
            if writes_pointer(now[q], b) {
                let j = choose|j: int|
                    0 <= j < now[q].len() && (#[trigger] now[q][j]).access.value == b;
                assert(more[q][j].access.value == b);
            }
            if b == a {
                assert(more[q][i].access.value == b);
            }
        }
    }
    assert forall|b: RamAddress| is_written(more, b) <==> (is_written(now, b) || b == a) by {
        if is_written(more, b) {
            let q = choose|q: MmioAddress| #[trigger]
                more.contains_key(q) && writes_pointer(more[q], b);
            assert(now.contains_key(q));
        }
        if is_written(now, b) {
            let q = choose|q: MmioAddress| #[trigger]
                now.contains_key(q) && writes_pointer(now[q], b);
            assert(more.contains_key(q) && writes_pointer(more[q], b));
        }
        if b == a {
            assert(more.contains_key(r) && writes_pointer(more[r], a));
        }
    }
    assert forall|b: RamAddress| got.contains_key(b) implies got[b] == wanted[b] by {
        assert forall|q: MmioAddress| got[b].contains(q) <==> wanted[b].contains(q) by {
            if b == a && !m.contains_key(a) && got[b].contains(q) && q != r {
                assert(now.contains_key(q) && writes_pointer(now[q], a));
            }
        }
        assert(got[b] =~= wanted[b]);
    }
    assert(got =~= wanted);
}

/// Adds what was found out about one more register.
fn add_analysis(
    analysis: &mut PointerAnalysis,
    r: MmioAddress,
    found: RegisterAnalysis,
    writes: &Vec<AccessHistEntry>,
    Ghost(t): Ghost<TraceModel>,
    Ghost(seen): Ghost<Map<MmioAddress, Seq<AccessHistEntry>>>,
)
    requires
        old(analysis).describes(t, seen),
        !seen.contains_key(r),
        results_of(t, r, seen.insert(r, writes@)[r]) == Some(result_views(found.results@)),
        pointer_of(found.guessed_type) == merged_guess(result_views(found.results@)),
        found.init_profile.has_used == has_used(result_views(found.results@)),
    ensures
        final(analysis).describes(t, seen.insert(r, writes@)),
{
    let ghost more = seen.insert(r, writes@);
    add_register(&mut analysis.by_ram_addr, r, writes, Ghost(seen));
    let ghost before = *analysis;
    map_insert(&mut analysis.by_mmio_addr, r, found.results);
    map_insert(&mut analysis.init_profile_by_mmio_addr, r, found.init_profile);
    if let Some(guessed_type) = found.guessed_type {
        map_insert(&mut analysis.guessed_type_by_mmio_addr, r, guessed_type);
    }
    proof {
        let old_results = results_by_key(before.by_mmio_addr@);
        let new_results = results_by_key(analysis.by_mmio_addr@);
        assert(new_results =~= old_results.insert(r, result_views(found.results@)));
        assert(old_results == analysis_of(t, seen));
        assert(new_results =~= analysis_of(t, more));
        let old_types = type_views(before.guessed_type_by_mmio_addr@);
        let new_types = type_views(analysis.guessed_type_by_mmio_addr@);
        assert(old_types == types_of(t, seen));
        if let Some(guess) = pointer_of(found.guessed_type) {
            assert(new_types =~= old_types.insert(r, guess));
        }
        assert(new_types =~= types_of(t, more));
        assert(analysis.init_profile_by_mmio_addr@.dom() =~= more.dom());
    }
}

/// Analyses the pointers that are written to register `r`.
fn analyze_register_at(
    tinfo: &TraceInfo,
    classes: &RegisterClasses,
    r: MmioAddress,
    writes: &Vec<AccessHistEntry>,
) -> (res: Option<RegisterAnalysis>)
    requires
        tinfo.wf(),
        classes.misaligned_mmio_ram_addr_writes@ == misaligned_writes(
            tinfo@.map,
            mmio_writes(tinfo@.events),
        ),
        classes.mmio_regs_with_mmio_ptr_writes@ == register_pointer_holders(
            tinfo@.map,
            mmio_writes(tinfo@.events),
        ),
    ensures
        res is Some <==> results_of(tinfo@, r, writes@) is Some,
        res matches Some(found) ==> {
            let results = result_views(found.results@);
            &&& results_of(tinfo@, r, writes@) == Some(results)
            &&& pointer_of(found.guessed_type) == merged_guess(results)
            &&& found.init_profile.has_used == has_used(results)
        },
{
    proof {
        reveal(results_of);
    }
    let consider_ram_descriptor = !map_contains(&classes.misaligned_mmio_ram_addr_writes, &r)
        && !set_contains(&classes.mmio_regs_with_mmio_ptr_writes, &r);
    analyze_register(tinfo, writes, consider_ram_descriptor)
}

/// Analyses the pointers that are written to registers. None where something that is to be looked
/// at is out of reach.
fn analyze_pointers(tinfo: &TraceInfo, classes: &RegisterClasses) -> (res: Option<PointerAnalysis>)
    requires
        tinfo.wf(),
        classes.misaligned_mmio_ram_addr_writes@ == misaligned_writes(
            tinfo@.map,
            mmio_writes(tinfo@.events),
        ),
        classes.mmio_regs_with_mmio_ptr_writes@ == register_pointer_holders(
            tinfo@.map,
            mmio_writes(tinfo@.events),
        ),
    ensures
        res is Some <==> analysable(tinfo@, seq_views(classes.mmio_written_ram_addrs@)),
        res matches Some(analysis) ==> analysis.describes(
            tinfo@,
            seq_views(classes.mmio_written_ram_addrs@),
        ),
{
    let ghost t = tinfo@;
    let ghost all = seq_views(classes.mmio_written_ram_addrs@);
    let mut analysis = PointerAnalysis {
        by_mmio_addr: FxHashMap::default(),
        by_ram_addr: FxHashMap::default(),
        guessed_type_by_mmio_addr: FxHashMap::default(),
        init_profile_by_mmio_addr: FxHashMap::default(),
    };
    let keys = map_keys(&classes.mmio_written_ram_addrs);
    let ghost mut seen = Map::<MmioAddress, Seq<AccessHistEntry>>::empty();
    let mut i: usize = 0;
    proof {
        assert(all.dom() =~= classes.mmio_written_ram_addrs@.dom());
        assert(keys@.take(0).to_set() =~= Set::empty());
        assert(seen =~= all.restrict(keys@.take(0).to_set()));
        assert(results_by_key(analysis.by_mmio_addr@) =~= analysis_of(t, seen));
        assert(set_views(analysis.by_ram_addr@) =~= registers_by_buffer(seen)) by {
            assert forall|a: RamAddress| !is_written(seen, a) by {}
        }
        assert(type_views(analysis.guessed_type_by_mmio_addr@) =~= types_of(t, seen));
        assert(analysis.init_profile_by_mmio_addr@.dom() =~= seen.dom());
    }
    while i < keys.len()
        invariant
            tinfo.wf(),
            t == tinfo@,
            all == seq_views(classes.mmio_written_ram_addrs@),
            classes.misaligned_mmio_ram_addr_writes@ == misaligned_writes(
                t.map,
                mmio_writes(t.events),
            ),
            classes.mmio_regs_with_mmio_ptr_writes@ == register_pointer_holders(
                t.map,
                mmio_writes(t.events),
            ),
            enumerates(keys@, all.dom()),
            i <= keys@.len(),
            seen == all.restrict(keys@.take(i as int).to_set()),
            forall|j: int| 0 <= j < i ==> (#[trigger] results_of(t, keys@[j], all[keys@[j]])) is Some,
            analysis.describes(t, seen),
        decreases keys.len() - i,
    {
        let r = keys[i];
        proof {
            assert(keys@.to_set().contains(r));
            assert(all.contains_key(r));
            lemma_take_to_set(keys@, i as int);
            assert(!keys@.take(i as int).contains(r));
        }
        let writes = map_get(&classes.mmio_written_ram_addrs, &r).unwrap();
        assert(writes@ == all[r]);
        match analyze_register_at(tinfo, classes, r, writes) {
            Some(found) => {
                add_analysis(&mut analysis, r, found, writes, Ghost(t), Ghost(seen));
                proof {
                    seen = seen.insert(r, writes@);
                    assert(seen =~= all.restrict(keys@.take(i + 1).to_set()));
                }
            },
            None => {
                return None;
            },
        }
        i += 1;
    }
    proof {
        assert(keys@.take(i as int) =~= keys@);
        assert(seen =~= all);
        assert forall|r: MmioAddress| all.contains_key(r) implies (#[trigger] results_of(
            t,
            r,
            all[r],
        )) is Some by {
            assert(keys@.to_set().contains(r));
            let j = choose|j: int| 0 <= j < keys@.len() && keys@[j] == r;
            assert(results_of(t, keys@[j], all[keys@[j]]) is Some);
        }
    }
    Some(analysis)
}

/// The registers that share a buffer can be compared.
proof fn lemma_comparable(t: TraceModel, writes: Map<MmioAddress, Seq<AccessHistEntry>>)
    requires
        t.wf(),
        analysable(t, writes),
    ensures
        all_comparable(analysis_of(t, writes), registers_by_buffer(writes)),
        forall|r: MmioAddress| #[trigger]
            writes.contains_key(r) ==> results_ok(t, results_of(t, r, writes[r])->0),
{
    let analysis = analysis_of(t, writes);
    let regs = registers_by_buffer(writes);
    assert forall|r: MmioAddress| #[trigger] writes.contains_key(r) implies all_offsets_ok(
        analysis[r],
    ) && results_ok(t, results_of(t, r, writes[r])->0) by {
        assert(results_of(t, r, writes[r]) is Some);
        reveal(results_of);
        lemma_register_offsets(t, writes[r], guesses_types(t, r));
        lemma_results_ok(t, writes[r], guesses_types(t, r));
    }
    assert forall|a: RamAddress| #[trigger] regs.contains_key(a) implies comparable(
        analysis,
        regs[a],
    ) by {
        assert forall|q: MmioAddress| regs[a].contains(q) implies writes.contains_key(q) by {}
    }
}

/// The buffers are told apart by whether their register holds pointers: those of registers that do,
/// by register, and a list of the others.
spec fn told_apart(
    detected: Map<MmioAddress, BufModel>,
    discarded: Seq<BufModel>,
    buffers: Map<MmioAddress, BufModel>,
    non_pointers: Set<MmioAddress>,
) -> bool {
    &&& detected == buffers.remove_keys(non_pointers)
    &&& lists_values(discarded, buffers.restrict(non_pointers))
}

/// One more buffer is added to the table or to the list.
proof fn lemma_told_apart(
    detected: Map<MmioAddress, BufModel>,
    discarded: Seq<BufModel>,
    buffers: Map<MmioAddress, BufModel>,
    non_pointers: Set<MmioAddress>,
    r: MmioAddress,
    buffer: BufModel,
)
    requires
        told_apart(detected, discarded, buffers, non_pointers),
        !buffers.contains_key(r),
    ensures
        non_pointers.contains(r) ==> told_apart(
            detected,
            discarded.push(buffer),
            buffers.insert(r, buffer),
            non_pointers,
        ),
        !non_pointers.contains(r) ==> told_apart(
            detected.insert(r, buffer),
            discarded,
            buffers.insert(r, buffer),
            non_pointers,
        ),
{
    let more = buffers.insert(r, buffer);
    let before = buffers.restrict(non_pointers);
    let after = more.restrict(non_pointers);
    let order = choose|order: Seq<MmioAddress>| #[trigger]
        enumerates(order, before.dom()) && discarded == order.map_values(
            |k: MmioAddress| before[k],
        );
    assert forall|j: int| 0 <= j < order.len() implies before.contains_key(#[trigger] order[j]) by {
        assert(order.to_set().contains(order[j]));
    }
    if non_pointers.contains(r) {
        let longer = order.push(r);
        lemma_push_to_set(order, r);
        assert(longer.to_set() =~= after.dom());
        assert(longer.no_duplicates());
        assert(enumerates(longer, after.dom()));
        assert(discarded.push(buffer) =~= longer.map_values(|k: MmioAddress| after[k]));
        assert(detected =~= more.remove_keys(non_pointers));
    } else {
        assert(after =~= before);
        assert(detected.insert(r, buffer) =~= more.remove_keys(non_pointers));
    }
}

/// Finds the registers that are given buffers that devices write to, and tells those that do not
/// hold pointers from the others.
fn find_candidates(
    tinfo: &TraceInfo,
    analysis: &PointerAnalysis,
    rx_tx_pairs: &FxHashMap<MmioAddress, RxTxPair>,
    classes: &RegisterClasses,
    Ghost(writes): Ghost<Map<MmioAddress, Seq<AccessHistEntry>>>,
) -> (res: (FxHashMap<MmioAddress, DmaBufMeta>, Vec<DmaBufMeta>))
    requires
        tinfo.wf(),
        analysis.describes(tinfo@, writes),
        forall|r: MmioAddress| #[trigger]
            writes.contains_key(r) ==> results_ok(tinfo@, results_of(tinfo@, r, writes[r])->0),
    ensures
        told_apart(
            buf_views(res.0@),
            buf_list_views(res.1@),
            candidates(tinfo@, analysis_of(tinfo@, writes), rx_tx_pairs@),
            classes.mmio_non_pointers@.dom(),
        ),
{
    let ghost t = tinfo@;
    let ghost results = analysis_of(t, writes);
    let ghost buffers = candidates(t, results, rx_tx_pairs@);
    let ghost non_pointers = classes.mmio_non_pointers@.dom();
    let mut detected: FxHashMap<MmioAddress, DmaBufMeta> = FxHashMap::default();
    let mut discarded: Vec<DmaBufMeta> = Vec::new();
    let keys = map_keys(&analysis.by_mmio_addr);
    let mut i: usize = 0;
    proof {
        assert(results_by_key(analysis.by_mmio_addr@).dom() =~= analysis.by_mmio_addr@.dom());
        assert(results.dom() =~= writes.dom());
        assert(keys@.take(0).to_set() =~= Set::empty());
        let none = buffers.restrict(keys@.take(0).to_set());
        assert(buf_views(detected@) =~= none.remove_keys(non_pointers));
        let order = Seq::<MmioAddress>::empty();
        assert(order.to_set() =~= none.restrict(non_pointers).dom());
        assert(enumerates(order, none.restrict(non_pointers).dom()));
        assert(buf_list_views(discarded@) =~= order.map_values(
            |k: MmioAddress| none.restrict(non_pointers)[k],
        ));
    }
    while i < keys.len()
        invariant
            t == tinfo@,
            analysis.describes(t, writes),
            results == analysis_of(t, writes),
            buffers == candidates(t, results, rx_tx_pairs@),
            non_pointers == classes.mmio_non_pointers@.dom(),
            forall|r: MmioAddress| #[trigger]
                writes.contains_key(r) ==> results_ok(t, results_of(t, r, writes[r])->0),
            enumerates(keys@, writes.dom()),
            i <= keys@.len(),
            told_apart(
                buf_views(detected@),
                buf_list_views(discarded@),
                buffers.restrict(keys@.take(i as int).to_set()),
                non_pointers,
            ),
        decreases keys.len() - i,
    {
        let r = keys[i];
        let ghost before = buffers.restrict(keys@.take(i as int).to_set());
        let ghost after = buffers.restrict(keys@.take(i + 1).to_set());
        proof {
            assert(keys@.to_set().contains(r));
            assert(writes.contains_key(r));
            assert(results_by_key(analysis.by_mmio_addr@).contains_key(r));
            lemma_take_to_set(keys@, i as int);
            assert(!keys@.take(i as int).contains(r));
        }
        match find_candidate_at(tinfo, analysis, rx_tx_pairs, r, Ghost(writes)) {
            Some(buffer) => {
                proof {
                    assert(buffers.contains_key(r) && buffers[r] == buffer@);
                    assert(after =~= before.insert(r, buffer@));
                    lemma_told_apart(
                        buf_views(detected@),
                        buf_list_views(discarded@),
                        before,
                        non_pointers,
                        r,
                        buffer@,
                    );
                }
                let ghost old_detected = detected@;
                let ghost old_discarded = discarded@;
                if map_contains(&classes.mmio_non_pointers, &r) {
                    discarded.push(buffer);
                    assert(buf_list_views(discarded@) =~= buf_list_views(old_discarded).push(
                        buffer@,
                    ));
                } else {
                    map_insert(&mut detected, r, buffer);
                    assert(buf_views(detected@) =~= buf_views(old_detected).insert(r, buffer@));
                }
            },
            None => {
                assert(before =~= after);
            },
        }
        i += 1;
    }
    assert(keys@.take(i as int) =~= keys@);
    assert(buffers.restrict(keys@.to_set()) =~= buffers);
    (detected, discarded)
}

/// Finds the buffers of register `r` that devices write to.
fn find_candidate_at(
    tinfo: &TraceInfo,
    analysis: &PointerAnalysis,
    rx_tx_pairs: &FxHashMap<MmioAddress, RxTxPair>,
    r: MmioAddress,
    Ghost(writes): Ghost<Map<MmioAddress, Seq<AccessHistEntry>>>,
) -> (res: Option<DmaBufMeta>)
    requires
        analysis.describes(tinfo@, writes),
        writes.contains_key(r),
        results_ok(tinfo@, results_of(tinfo@, r, writes[r])->0),
    ensures
        ({
            let candidate = candidate_of(
                tinfo@,
                r,
                analysis_of(tinfo@, writes)[r],
                rx_tx_pairs@,
            );
            &&& res is Some <==> candidate is Some
            &&& res matches Some(res) ==> Some(res@) == candidate
        }),
{
    assert(results_by_key(analysis.by_mmio_addr@).contains_key(r));
    let results = map_get(&analysis.by_mmio_addr, &r).unwrap();
    assert(result_views(results@) == analysis_of(tinfo@, writes)[r]);
    let profile = map_get(&analysis.init_profile_by_mmio_addr, &r).unwrap();
    let pair = match map_get(rx_tx_pairs, &r) {
        Some(pair) => Some(*pair),
        None => None,
    };
    find_candidate(tinfo, r, results, profile.has_used, pair)
}

proof fn lemma_push_to_set<K>(s: Seq<K>, x: K)
    ensures
        s.push(x).to_set() == s.to_set().insert(x),
{
    lemma_take_to_set(s.push(x), s.len() as int);
    assert(s.push(x).take(s.len() as int) =~= s);
    assert(s.push(x).take(s.len() as int + 1) =~= s.push(x));
}

/// Whether every trace position has a number and every memory access lies in the address space.
fn is_supported(trace: &Trace) -> (res: bool)
    ensures
        res == supported_trace(trace.events@),
{
    if trace.events.len() as u64 > TraceId::MAX as u64 {
        return false;
    }
    let mut i: usize = 0;
    while i < trace.events.len()
        invariant
            trace.events@.len() <= TraceId::MAX,
            i <= trace.events@.len(),
            forall|j: int|
                0 <= j < i ==> in_address_space((#[trigger] trace.events@[j]).access()),
        decreases trace.events.len() - i,
    {
        let TraceEvent::Access(access) = trace.events[i];
        let len: u64 = if access.size < 4 {
            access.size as u64
        } else {
            4
        };
        if matches!(access.target, AccessTarget::Ram) && access.address as u64 + len
            > 0x1_0000_0000 {
            assert(!in_address_space(trace.events@[i as int].access()));
            return false;
        }
        i += 1;
    }
    true
}

/// Analyses a trace: which registers are given buffers that devices write to, and what is found out
/// about the pointers that are written to registers.
pub fn detect_dma(mem_map: MemoryMap, trace: Trace) -> (res: Result<
    DmaAnalysisSnippet,
    DetectError,
>)
    ensures
        ({
            let t = TraceModel::of(trace.events@, mem_map@);
            let writes = mmio_writes(t.events);
            let supported = supported_trace(t.events) && registers_in_reach(writes);
            let in_reach = analysable(t, memory_pointer_writes(t.map, writes));
            &&& res is Ok <==> supported && in_reach
            &&& res == Err::<DmaAnalysisSnippet, DetectError>(DetectError::UnsupportedTrace)
                <==> !supported
            &&& res == Err::<DmaAnalysisSnippet, DetectError>(DetectError::OutOfReach)
                <==> supported && !in_reach
            &&& res matches Ok(snippet) ==> finds(t, snippet@)
        }),
{
    if !is_supported(&trace) {
        return Err(DetectError::UnsupportedTrace);
    }
    proof {
        assert forall|i: int|
            0 <= i < trace.events@.len() && (
            #[trigger] trace.events@[i]).access().target is Ram implies recordable(
        trace.events@[i].access()) by {
            assert(in_address_space(trace.events@[i].access()));
        }
    }
    let tinfo = TraceInfo::new(trace, mem_map);
    let ghost t = tinfo@;
    let ghost writes = mmio_writes(t.events);
    let ghost pointer_writes = memory_pointer_writes(t.map, writes);
    let classes = match classify_registers(&tinfo) {
        Some(classes) => classes,
        None => {
            return Err(DetectError::UnsupportedTrace);
        },
    };
    let ghost order = choose|order: Seq<MmioAddress>| #[trigger]
        enumerates(order, writes.dom()) && classes.describes(t.map, writes, order);
    assert(writes.restrict(order.to_set()) =~= writes);
    let analysis = match analyze_pointers(&tinfo, &classes) {
        Some(analysis) => analysis,
        None => {
            return Err(DetectError::OutOfReach);
        },
    };
    proof {
        lemma_comparable(t, pointer_writes);
        assert(set_views(analysis.by_ram_addr@).dom() =~= analysis.by_ram_addr@.dom());
    }
    let rx_tx_pairs = find_rx_tx_pairs(&analysis.by_mmio_addr, &analysis.by_ram_addr);
    let ghost pair_order = choose|pair_order: Seq<RamAddress>| #[trigger]
        enumerates(pair_order, analysis.by_ram_addr@.dom()) && rx_tx_pairs@ == pairs_in_order(
            results_by_key(analysis.by_mmio_addr@),
            set_views(analysis.by_ram_addr@),
            pair_order,
        ).pairs;
    let (detected, discarded) = find_candidates(
        &tinfo,
        &analysis,
        &rx_tx_pairs,
        &classes,
        Ghost(pointer_writes),
    );
    let mut res = DmaAnalysisSnippet::default();
    res.detected_candidates = detected;
    res.discarded_candidates = discarded;
    res.mmio_pointer_counterexamples = classes.mmio_non_pointers;
    res.analysis_by_mmio_addr = analysis.by_mmio_addr;
    res.misaligned_mmio_writes = classes.misaligned_mmio_ram_addr_writes;
    res.guessed_type_by_mmio_addr = analysis.guessed_type_by_mmio_addr;
    res.set_rx_tx_pairs(&rx_tx_pairs);
    assert(found_in(t, order, pair_order, res@));
    Ok(res)
}

} // verus!
