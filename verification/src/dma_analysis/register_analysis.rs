//! What the pointers that are written to one register point to.

use super::access_state::{
    access_state, access_state_from, get_access_state, lemma_first_within, MAX_ACCESS_OFFSET,
};
use super::init_state::{get_initialization_state, init_state, MAX_INIT_PATTERN_SCAN_LEN};
use super::merge::{
    lemma_regular_merge, lemma_regular_with_field, merged_pointer, regular, regular_field,
    with_merged_field, FieldModel, FieldTypeGuess, PointerModel, PointerType,
};
use super::pairs::{all_offsets_ok, offsets_ok};
use super::pointer_table::{
    gather_pointer_table_types, lemma_pointer_regular, lemma_table_regular, pointer_table,
    pointer_views,
};
use super::result::{result_views, AccessAnalysisResult, ResultModel};
use super::trace_info::{TraceInfo, TraceModel};
use super::type_info::{
    gather_type_info, pointer_at, pointer_of, InitStateCache, Moment, MAX_UNINIT_LEN_PROFILE,
};
use super::types::{AccessHistEntry, AccessState, InitializationStateProfile, TraceIdRange};
use crate::common::{Address, RamAddress, TraceId};
use crate::hoedur::bintrace::AccessType;
use crate::mem_view::{until, TimeRange};
use crate::scan::{last_before, lemma_last_before};
use crate::tables::{map_get, map_insert, seq_at};
use fxhash::FxHashMap;
use vstd::prelude::*;

verus! {

broadcast use vstd::std_specs::hash::group_hash_axioms;

/// The entries that write `value`.
pub open spec fn writes_value(writes: Seq<AccessHistEntry>, value: RamAddress) -> spec_fn(
    int,
) -> bool {
    |i: int| writes[i].access.value == value
}

/// The trace position of the last of the first `n` writes of `value`, and zero where there is none.
pub open spec fn last_written(writes: Seq<AccessHistEntry>, n: int, value: RamAddress) -> TraceId {
    match last_before(n, writes_value(writes, value)) {
        Some(i) => writes[i].trace_ind,
        None => 0,
    }
}

/// The trace positions that matter for the write with the index `i`: the one itself, the one of the
/// next write to the register, and the one of the last write of the same pointer.
pub open spec fn moment_at(writes: Seq<AccessHistEntry>, i: int) -> Moment {
    Moment {
        trace_ind: writes[i].trace_ind,
        next_ind: if i + 1 < writes.len() {
            writes[i + 1].trace_ind
        } else {
            TraceId::MAX
        },
        init_start: last_written(writes, i, writes[i].access.value),
        init_end: writes[i].trace_ind,
    }
}

/// The guess with the first `n` entries of a pointer table merged into its fields.
pub open spec fn with_table(guess: PointerModel, table: Seq<PointerModel>, n: int) -> PointerModel
    decreases n,
{
    if n <= 0 {
        guess
    } else {
        with_merged_field(
            with_table(guess, table, n - 1),
            FieldModel::Pointer { pointer: table[n - 1] },
            n - 1,
        )
    }
}

/// The guess at what lies behind a pointer, be it a structure or a table of pointers. None where
/// something that is to be looked at is out of reach.
pub open spec fn pointer_guess(t: TraceModel, value: RamAddress, moment: Moment) -> Option<
    PointerModel,
> {
    match pointer_at(t, value, moment) {
        Some(guess) => match pointer_table(t, value, guess, moment) {
            Some(table) => Some(with_table(guess, table, table.len() as int)),
            None => None,
        },
        None => None,
    }
}

/// What is found out about the write with the index `i`, with a guess at what its pointer points to
/// if `guessing`. None where something that is to be looked at is out of reach.
pub open spec fn result_at(
    t: TraceModel,
    writes: Seq<AccessHistEntry>,
    i: int,
    guessing: bool,
) -> Option<ResultModel> {
    let value = writes[i].access.value;
    let moment = moment_at(writes, i);
    let state = init_state(
        t,
        value,
        moment.init_start,
        moment.init_end,
        MAX_INIT_PATTERN_SCAN_LEN,
    );
    let access = access_state(t, value, TimeRange::between(moment.trace_ind, moment.next_ind));
    let guess = pointer_guess(t, value, moment);
    if state is None || access is None || (guessing && guess is None) {
        None
    } else {
        Some(
            ResultModel {
                trace_range: TraceIdRange {
                    prev_id: moment.init_start,
                    curr_id: moment.trace_ind,
                    next_id: moment.next_ind,
                },
                mmio_access: writes[i],
                init_state: state->0,
                access_state: access->0,
                raw_type_guess: if guessing {
                    guess
                } else {
                    None
                },
            },
        )
    }
}

/// What is found out about each of the writes. None where something that is to be looked at is out
/// of reach.
pub open spec fn register_results(
    t: TraceModel,
    writes: Seq<AccessHistEntry>,
    guessing: bool,
) -> Option<Seq<ResultModel>> {
    if exists|i: int| 0 <= i < writes.len() && (#[trigger] result_at(t, writes, i, guessing)) is None {
        None
    } else {
        Some(Seq::new(writes.len(), |i: int| result_at(t, writes, i, guessing)->0))
    }
}

/// The guesses of all results, merged in their order.
pub open spec fn merged_guess(results: Seq<ResultModel>) -> Option<PointerModel>
    decreases results.len(),
{
    if results.len() == 0 {
        None
    } else {
        match (merged_guess(results.drop_last()), results.last().raw_type_guess) {
            (Some(guess), Some(other)) => Some(merged_pointer(guess, other)),
            (Some(guess), None) => Some(guess),
            (None, other) => other,
        }
    }
}

/// Some result is one of a buffer that was used before.
pub open spec fn has_used(results: Seq<ResultModel>) -> bool {
    exists|i: int| 0 <= i < results.len() && (#[trigger] results[i]).init_state is Used
}

/// The profile of the states that the buffers of all results were in.
pub open spec fn init_profile_of(results: Seq<ResultModel>) -> InitializationStateProfile
    decreases results.len(),
{
    if results.len() == 0 {
        InitializationStateProfile::none()
    } else {
        init_profile_of(results.drop_last()).merged(
            InitializationStateProfile::of(results.last().init_state),
        )
    }
}

/// A regular guess stays regular with a table of regular pointers.
proof fn lemma_with_table(guess: PointerModel, table: Seq<PointerModel>, n: int)
    requires
        regular(guess),
        0 <= n <= table.len(),
        all_regular(table),
    ensures
        regular(with_table(guess, table, n)),
        with_table(guess, table, n).to.len() == guess.to.len(),
    decreases n,
{
    if n > 0 {
        lemma_with_table(guess, table, n - 1);
        assert(regular(table[n - 1]));
        let field = FieldModel::Pointer { pointer: table[n - 1] };
        assert(regular_field(field));
        lemma_regular_with_field(with_table(guess, table, n - 1), field, n - 1);
    }
}

/// Every pointer is regular.
pub open spec fn all_regular(pointers: Seq<PointerModel>) -> bool {
    forall|j: int| 0 <= j < pointers.len() ==> regular(#[trigger] pointers[j])
}

/// The pointers of a pointer table are regular.
proof fn lemma_pointer_table_regular(
    t: TraceModel,
    value: RamAddress,
    guess: PointerModel,
    moment: Moment,
)
    requires
        t.wf(),
        regular(guess),
    ensures
        pointer_table(t, value, guess, moment) matches Some(table) ==> all_regular(table),
{
    lemma_table_regular(t, value, guess.to, moment, 0, Seq::empty());
}

/// The guess at what lies behind a pointer is regular.
pub proof fn lemma_pointer_guess_regular(t: TraceModel, value: RamAddress, moment: Moment)
    requires
        t.wf(),
    ensures
        pointer_guess(t, value, moment) matches Some(guess) ==> regular(guess),
{
    if let Some(guess) = pointer_at(t, value, moment) {
        lemma_pointer_regular(t, value, moment);
        lemma_pointer_table_regular(t, value, guess, moment);
        if let Some(table) = pointer_table(t, value, guess, moment) {
            lemma_with_table(guess, table, table.len() as int);
        }
    }
}

/// The merged guess is regular where all guesses are.
proof fn lemma_merged_guess_regular(results: Seq<ResultModel>)
    requires
        forall|i: int|
            0 <= i < results.len() ==> ((#[trigger] results[i]).raw_type_guess matches Some(guess)
                ==> regular(guess)),
    ensures
        merged_guess(results) matches Some(guess) ==> regular(guess),
    decreases results.len(),
{
    if results.len() > 0 {
        let rest = results.drop_last();
        assert forall|i: int| 0 <= i < rest.len() implies ((#[trigger] rest[i]).raw_type_guess
            matches Some(guess) ==> regular(guess)) by {
            assert(rest[i] == results[i]);
        }
        lemma_merged_guess_regular(rest);
        assert(results[results.len() - 1] == results.last());
        if let (Some(guess), Some(other)) = (merged_guess(rest), results.last().raw_type_guess) {
            lemma_regular_merge(guess, other);
        }
    }
}

/// The merged guess at what lies behind the pointers of a register is regular.
pub proof fn lemma_register_guess_regular(
    t: TraceModel,
    writes: Seq<AccessHistEntry>,
    guessing: bool,
)
    requires
        t.wf(),
    ensures
        register_results(t, writes, guessing) matches Some(results) ==> (merged_guess(results)
            matches Some(guess) ==> regular(guess)),
{
    if let Some(results) = register_results(t, writes, guessing) {
        assert forall|i: int| 0 <= i < results.len() implies ((#[trigger] results[i]).raw_type_guess
            matches Some(guess) ==> regular(guess)) by {
            assert(result_at(t, writes, i, guessing) is Some);
            lemma_pointer_guess_regular(t, writes[i].access.value, moment_at(writes, i));
        }
        lemma_merged_guess_regular(results);
    }
}

/// The read of a result comes after the write of the pointer, and the write before it.
pub proof fn lemma_result_offsets(
    t: TraceModel,
    writes: Seq<AccessHistEntry>,
    i: int,
    guessing: bool,
)
    requires
        t.wf(),
    ensures
        result_at(t, writes, i, guessing) matches Some(r) ==> {
            &&& offsets_ok(r)
            &&& r.access_state matches AccessState::ReadBeforeWrite { read_time, .. } ==> read_time
                < t.events.len()
        },
{
    if let Some(r) = result_at(t, writes, i, guessing) {
        let value = writes[i].access.value;
        let moment = moment_at(writes, i);
        let time = TimeRange::between(moment.trace_ind, moment.next_ind);
        lemma_read_time(t, value, time, 0);
        let h = seq_at(t.mem.writes, value);
        lemma_last_before(h.len() as int, until(h, moment.init_end as int));
    }
}

/// The read that an access state tells of is an event of the trace in the given range.
proof fn lemma_read_time(t: TraceModel, address: RamAddress, time: TimeRange, offset: int)
    requires
        t.wf(),
        0 <= offset,
    ensures
        access_state_from(t, address, time, offset) matches Some(
            AccessState::ReadBeforeWrite { read_time, .. },
        ) ==> read_time < t.events.len() && time.has(read_time as int),
    decreases MAX_ACCESS_OFFSET - offset,
{
    let a = (address + offset) as Address;
    lemma_first_within(t, AccessType::Read, a, time);
    if offset < MAX_ACCESS_OFFSET {
        lemma_read_time(t, address, time, offset + 1);
    }
}

/// All results have offsets.
pub proof fn lemma_register_offsets(t: TraceModel, writes: Seq<AccessHistEntry>, guessing: bool)
    requires
        t.wf(),
    ensures
        register_results(t, writes, guessing) matches Some(results) ==> all_offsets_ok(results),
{
    if let Some(results) = register_results(t, writes, guessing) {
        assert forall|i: int| 0 <= i < results.len() implies offsets_ok(#[trigger] results[i]) by {
            assert(result_at(t, writes, i, guessing) is Some);
            lemma_result_offsets(t, writes, i, guessing);
        }
    }
}

/// Merges the entries of a pointer table into the fields of a guess.
fn merge_table(guess: &mut PointerType, table_types: &Vec<PointerType>)
    requires
        regular(old(guess)@),
        all_regular(pointer_views(table_types@)),
    ensures
        final(guess)@ == with_table(
            old(guess)@,
            pointer_views(table_types@),
            table_types@.len() as int,
        ),
{
    let ghost first = guess@;
    let ghost table = pointer_views(table_types@);
    let mut i: usize = 0;
    while i < table_types.len()
        invariant
            table == pointer_views(table_types@),
            i <= table.len(),
            regular(first),
            all_regular(table),
            guess@ == with_table(first, table, i as int),
        decreases table_types.len() - i,
    {
        proof {
            lemma_with_table(first, table, i as int);
            assert(regular(table[i as int]));
            assert(table[i as int] == table_types@[i as int]@);
        }
        let field = FieldTypeGuess::Pointer { pointer: table_types[i].clone() };
        proof {
            assert(regular_field(field@));
            lemma_regular_with_field(guess@, field@, i as int);
        }
        guess.merge_field(&field, i);
        i += 1;
    }
}

/// Guesses what lies behind a pointer that was written to a register.
fn guess_pointer(
    tinfo: &TraceInfo,
    ram_address: RamAddress,
    trace_ind: TraceId,
    prev_ind: TraceId,
    next_ind: TraceId,
) -> (res: Option<PointerType>)
    requires
        tinfo.wf(),
    ensures
        pointer_of(res) == pointer_guess(
            tinfo@,
            ram_address,
            (Moment { trace_ind, next_ind, init_start: prev_ind, init_end: trace_ind }),
        ),
{
    let ghost moment = Moment { trace_ind, next_ind, init_start: prev_ind, init_end: trace_ind };
    let mut init_state_cache = InitStateCache::new(
        tinfo,
        MAX_UNINIT_LEN_PROFILE,
        prev_ind,
        trace_ind,
    );
    let mut guess = match gather_type_info(
        tinfo,
        ram_address,
        trace_ind,
        next_ind,
        &mut init_state_cache,
    ) {
        Some(guess) => guess,
        None => {
            return None;
        },
    };
    proof {
        lemma_pointer_regular(tinfo@, ram_address, moment);
        lemma_pointer_table_regular(tinfo@, ram_address, guess@, moment);
    }
    match gather_pointer_table_types(tinfo, ram_address, &guess, trace_ind, prev_ind, next_ind) {
        Some(table_types) => {
            merge_table(&mut guess, &table_types);
            Some(guess)
        },
        None => None,
    }
}

/// What is found out about the pointers that are written to one register.
#[derive(Debug)]
pub struct RegisterAnalysis {
    pub results: Vec<AccessAnalysisResult>,
    pub guessed_type: Option<PointerType>,
    pub init_profile: InitializationStateProfile,
}

/// Analyses the pointers that are written to one register.
pub fn analyze_register(
    tinfo: &TraceInfo,
    writes: &Vec<AccessHistEntry>,
    consider_ram_descriptor: bool,
) -> (res: Option<RegisterAnalysis>)
    requires
        tinfo.wf(),
    ensures
        res is Some <==> register_results(tinfo@, writes@, consider_ram_descriptor) is Some,
        res matches Some(analysis) ==> {
            let results = register_results(tinfo@, writes@, consider_ram_descriptor)->0;
            &&& result_views(analysis.results@) == results
            &&& pointer_of(analysis.guessed_type) == merged_guess(results)
            &&& analysis.init_profile == init_profile_of(results)
            &&& analysis.init_profile.has_used == has_used(results)
        },
{
    let ghost ws = writes@;
    let ghost guessing = consider_ram_descriptor;
    let mut prev_trace_ind_by_ram_addr: FxHashMap<RamAddress, TraceId> = FxHashMap::default();
    let mut results: Vec<AccessAnalysisResult> = Vec::new();
    let mut overall_guessed_type: Option<PointerType> = None;
    let mut init_profile = InitializationStateProfile::default();
    let mut i: usize = 0;
    while i < writes.len()
        invariant
            tinfo.wf(),
            ws == writes@,
            guessing == consider_ram_descriptor,
            i <= ws.len(),
            forall|a: RamAddress| #[trigger]
                prev_trace_ind_by_ram_addr@.contains_key(a) <==> last_before(
                    i as int,
                    writes_value(ws, a),
                ) is Some,
            forall|a: RamAddress| #[trigger]
                prev_trace_ind_by_ram_addr@.contains_key(a) ==> prev_trace_ind_by_ram_addr@[a]
                    == last_written(ws, i as int, a),
            results@.len() == i,
            forall|j: int|
                0 <= j < i ==> Some((#[trigger] results@[j])@) == result_at(tinfo@, ws, j, guessing),
            pointer_of(overall_guessed_type) == merged_guess(result_views(results@)),
            pointer_of(overall_guessed_type) matches Some(guess) ==> regular(guess),
            init_profile == init_profile_of(result_views(results@)),
            init_profile.has_used == has_used(result_views(results@)),
        decreases ws.len() - i,
    {
        let entry = writes[i];
        let trace_ind = entry.trace_ind;
        let ram_address = entry.access.value;
        let next_trace_ind = if i + 1 < writes.len() {
            writes[i + 1].trace_ind
        } else {
            TraceId::MAX
        };
        let prev_trace_ind = match map_get(&prev_trace_ind_by_ram_addr, &ram_address) {
            Some(ind) => *ind,
            None => 0,
        };
        let ghost moment = moment_at(ws, i as int);
        assert(moment == (Moment {
            trace_ind,
            next_ind: next_trace_ind,
            init_start: prev_trace_ind,
            init_end: trace_ind,
        }));
        let init_state = match get_initialization_state(
            tinfo,
            ram_address,
            prev_trace_ind,
            trace_ind,
            MAX_INIT_PATTERN_SCAN_LEN,
        ) {
            Some(state) => state,
            None => {
                assert(result_at(tinfo@, ws, i as int, guessing) is None);
                return None;
            },
        };
        let access_state = match get_access_state(
            tinfo,
            ram_address,
            &TimeRange::between(trace_ind, next_trace_ind),
        ) {
            Some(state) => state,
            None => {
                assert(result_at(tinfo@, ws, i as int, guessing) is None);
                return None;
            },
        };
        let mut cur_type_guess: Option<PointerType> = None;
        let ghost before = pointer_of(overall_guessed_type);
        if consider_ram_descriptor {
            proof {
                lemma_pointer_guess_regular(tinfo@, ram_address, moment);
            }
            match guess_pointer(tinfo, ram_address, trace_ind, prev_trace_ind, next_trace_ind) {
                Some(guess) => {
                    overall_guessed_type = match overall_guessed_type {
                        Some(mut summary) => {
                            proof {
                                lemma_regular_merge(summary@, guess@);
                            }
                            summary.merge(&guess);
                            Some(summary)
                        },
                        None => Some(guess.clone()),
                    };
                    cur_type_guess = Some(guess);
                },
                None => {
                    assert(result_at(tinfo@, ws, i as int, guessing) is None);
                    return None;
                },
            }
        }
        init_profile.merge(&InitializationStateProfile::new(&init_state));
        let ghost earlier = result_views(results@);
        let result = AccessAnalysisResult {
            trace_range: TraceIdRange {
                prev_id: prev_trace_ind,
                curr_id: trace_ind,
                next_id: next_trace_ind,
            },
            mmio_access: entry,
            init_state,
            access_state,
            raw_type_guess: cur_type_guess,
        };
        results.push(result);
        proof {
            let now = result_views(results@);
            assert(now.drop_last() =~= earlier);
            assert(now.last() == result@);
            assert(now =~= earlier.push(result@));
            assert(result_at(tinfo@, ws, i as int, guessing) == Some(result@));
            if has_used(earlier) {
                let j = choose|j: int|
                    0 <= j < earlier.len() && (#[trigger] earlier[j]).init_state is Used;
                assert(now[j].init_state is Used);
            }
            if result@.init_state is Used {
                assert(now[i as int].init_state is Used);
            }
            if has_used(now) {
                let j = choose|j: int| 0 <= j < now.len() && (#[trigger] now[j]).init_state is Used;
                if j < earlier.len() {
                    assert(earlier[j].init_state is Used);
                }
            }
        }
        map_insert(&mut prev_trace_ind_by_ram_addr, ram_address, trace_ind);
        i += 1;
    }
    proof {
        assert forall|j: int| 0 <= j < ws.len() implies (#[trigger] result_at(
            tinfo@,
            ws,
            j,
            guessing,
        )) is Some by {
            assert(Some(results@[j]@) == result_at(tinfo@, ws, j, guessing));
        }
        assert forall|j: int| 0 <= j < ws.len() implies result_views(results@)[j]
            == register_results(tinfo@, ws, guessing)->0[j] by {
            assert(Some(results@[j]@) == result_at(tinfo@, ws, j, guessing));
        }
        assert(result_views(results@) =~= register_results(tinfo@, ws, guessing)->0);
    }
    Some(RegisterAnalysis { results, guessed_type: overall_guessed_type, init_profile })
}

} // verus!
