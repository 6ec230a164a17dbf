//! Guesses at what lies behind the pointers that are written to registers.

use super::access_state::{access_state, get_access_state};
use super::init_state::{
    bulk_range, get_initialization_state, init_state, lemma_bulk_range_covers, lemma_pattern_bound,
    present_below,
};
use super::merge::{field_views, FieldModel, FieldTypeGuess, PointerModel, PointerType};
use super::trace_info::{lemma_ram_history, TraceInfo, TraceModel};
use super::types::{
    is_pointer_aligned, pointer_aligned, AccessStateProfile, InitializationState,
    InitializationStateProfile, POINTER_SIZE,
};
use crate::common::{Address, RamAddress, TraceId};
use crate::mem_view::{events_between, HistoryModel, TimeRange};
use crate::scan::{first_from, lemma_first_from};
use crate::tables::{map_contains, map_get, map_insert, set_insert};
use fxhash::{FxHashMap, FxHashSet};
use vstd::prelude::*;

verus! {

broadcast use vstd::std_specs::hash::group_hash_axioms;

/// The number of fields that are looked at behind a pointer.
pub const FIELD_SCAN_INITIAL_DEPTH: usize = 16;

/// The number of pointers that are followed in a row. The deepest structure that is looked for is a
/// pointer to a list of pointers to descriptors that point to buffers.
pub const FIELD_SCAN_RECURSION_DEPTH: usize = 3;

/// The number of bytes that are looked at on either side of an uninitialised address.
pub const MAX_UNINIT_LEN_PROFILE: u32 = 8;

/// The trace positions that a guess is made for: the memory as it stood before `trace_ind`, the
/// accesses from there on to `next_ind`, and initialisations between `init_start` and `init_end`.
pub struct Moment {
    pub trace_ind: TraceId,
    pub next_ind: TraceId,
    pub init_start: TraceId,
    pub init_end: TraceId,
}

/// The word at `a` in the view of `time`, and zero where it is not there.
pub open spec fn word_or_zero(m: HistoryModel, time: TimeRange, a: int) -> u32 {
    match m.number_in(time, a, 4) {
        Some(word) => word as u32,
        None => 0,
    }
}

/// The value of the field at `a`: the word before `trace_ind`, or else the word that the next write
/// before `next_ind` leaves, as it stands just before a further one.
pub open spec fn field_value(
    m: HistoryModel,
    a: RamAddress,
    trace_ind: TraceId,
    next_ind: TraceId,
) -> u32 {
    let word = word_or_zero(m, TimeRange::between(0, trace_ind), a as int);
    if word != 0 || !m.writes.contains_key(a) {
        word
    } else {
        let writes = events_between(m.writes[a], trace_ind as int, next_ind as int);
        if writes.len() == 0 {
            0
        } else if writes.len() == 1 {
            word_or_zero(m, TimeRange::between(writes[0].trace_ind, next_ind), a as int)
        } else {
            word_or_zero(
                m,
                TimeRange::between(writes[0].trace_ind, writes[1].trace_ind),
                a as int,
            )
        }
    }
}

impl Moment {
    /// The value of the field at `a`.
    pub open spec fn value_at(self, m: HistoryModel, a: RamAddress) -> u32 {
        field_value(m, a, self.trace_ind, self.next_ind)
    }
}

/// The number of bytes in front of an address that may belong to an unused buffer: uninitialised
/// bytes, or bytes that a larger initialisation set to zero.
pub open spec fn unused_before(state: InitializationState) -> int {
    match state {
        InitializationState::Uninitialized { len_before, .. } => len_before as int,
        InitializationState::Pattern { at_bulk_init: Some(pattern), .. } => {
            if pattern.value != 0 || pattern.pattern_len != 1 {
                0
            } else {
                pattern.repetitions_before as int
            }
        },
        _ => 0,
    }
}

/// The offsets below `value` that are ever read.
pub open spec fn read_below(m: HistoryModel, value: RamAddress) -> spec_fn(int) -> bool {
    |k: int| m.reads.contains_key((value - k) as Address)
}

/// The offsets below `value` that are never read.
pub open spec fn unread_below(m: HistoryModel, value: RamAddress) -> spec_fn(int) -> bool {
    |k: int| !m.reads.contains_key((value - k) as Address)
}

/// The size of the buffer that may end at `value`: from `value` back to the far end of the first
/// bytes that are read, inside the unused memory in front. Zero for an even `value`, which does not
/// look like the end of a buffer; none where there is no such buffer.
pub open spec fn pre_buf_size(
    m: HistoryModel,
    value: RamAddress,
    state: InitializationState,
) -> Option<int> {
    let unused = unused_before(state);
    if value % 2 == 0 {
        Some(0)
    } else if unused == 0 {
        None
    } else {
        match first_from(0, unused + 1, read_below(m, value)) {
            Some(first) => match first_from(first, unused + 1, unread_below(m, value)) {
                Some(end) => Some(end),
                None => Some(unused + 1),
            },
            None => None,
        }
    }
}

/// A table with at most one entry.
pub open spec fn pre_sizes_of(value: RamAddress, size: Option<int>) -> Map<RamAddress, u64> {
    match size {
        Some(size) => Map::empty().insert(value, size as u64),
        None => Map::empty(),
    }
}

/// The address of the field with the index `i`.
pub open spec fn field_address(base: RamAddress, i: int) -> RamAddress {
    (base + 4 * i) as RamAddress
}

/// The guess at the field at `a`, where `to` are the guesses at the fields behind its value. None
/// where something that is to be looked at is out of reach.
#[verifier::opaque]
pub open spec fn field_guess(
    t: TraceModel,
    a: RamAddress,
    moment: Moment,
    to: Option<Seq<FieldModel>>,
) -> Option<FieldModel> {
    let value = moment.value_at(t.mem, a);
    if value == 0 {
        Some(FieldModel::Zero)
    } else if t.map.is_ram(value) {
        let state = init_state(
            t,
            value,
            moment.init_start,
            moment.init_end,
            MAX_UNINIT_LEN_PROFILE,
        );
        let access = access_state(
            t,
            value,
            TimeRange::between(moment.trace_ind, moment.next_ind),
        );
        match (state, access, to) {
            (Some(state), Some(access), Some(to)) => Some(
                FieldModel::Pointer {
                    pointer: PointerModel {
                        known_values: Set::empty().insert(value),
                        includes_mmio: false,
                        includes_misaligned_mmio: false,
                        includes_null: false,
                        to,
                        init_state_profile: InitializationStateProfile::of(state),
                        access_state_profile: AccessStateProfile::of(access),
                        potential_pre_buf_sizes: pre_sizes_of(
                            value,
                            pre_buf_size(t.mem, value, state),
                        ),
                    },
                },
            ),
            _ => None,
        }
    } else if t.map.is_mmio(value) {
        Some(
            FieldModel::Pointer {
                pointer: PointerModel {
                    includes_mmio: true,
                    includes_misaligned_mmio: !pointer_aligned(value),
                    potential_pre_buf_sizes: pre_sizes_of(value, Some(0)),
                    ..PointerModel::empty()
                },
            },
        )
    } else {
        Some(FieldModel::HighEntropy { val: value })
    }
}

/// The guesses at the fields from `ram_address` on, with pointers followed `depth - 1` times; no
/// fields where `depth` is zero. None where something that is to be looked at is out of reach.
pub open spec fn fields_at(
    t: TraceModel,
    ram_address: RamAddress,
    moment: Moment,
    depth: nat,
) -> Option<Seq<FieldModel>>
    decreases depth,
{
    if depth == 0 {
        Some(Seq::empty())
    } else if ram_address + 4 * FIELD_SCAN_INITIAL_DEPTH > Address::MAX || exists|i: int|
        0 <= i < FIELD_SCAN_INITIAL_DEPTH && field_guess(
            t,
            #[trigger] field_address(ram_address, i),
            moment,
            fields_at(
                t,
                moment.value_at(t.mem, field_address(ram_address, i)),
                moment,
                (depth - 1) as nat,
            ),
        ) is None {
        None
    } else {
        Some(
            Seq::new(
                FIELD_SCAN_INITIAL_DEPTH as nat,
                |i: int|
                    field_guess(
                        t,
                        field_address(ram_address, i),
                        moment,
                        fields_at(
                            t,
                            moment.value_at(t.mem, field_address(ram_address, i)),
                            moment,
                            (depth - 1) as nat,
                        ),
                    )->0,
            ),
        )
    }
}

/// The guess at the field at `a`, with pointers followed `depth - 1` times.
pub open spec fn field_at(t: TraceModel, a: RamAddress, moment: Moment, depth: nat) -> Option<
    FieldModel,
> {
    field_guess(
        t,
        a,
        moment,
        fields_at(t, moment.value_at(t.mem, a), moment, (depth - 1) as nat),
    )
}

/// The fields are the single fields in order, where all of them are there.
proof fn lemma_fields_at(
    t: TraceModel,
    ram_address: RamAddress,
    moment: Moment,
    depth: nat,
    fields: Seq<FieldModel>,
)
    requires
        depth > 0,
        ram_address + 4 * FIELD_SCAN_INITIAL_DEPTH <= Address::MAX,
        fields.len() == FIELD_SCAN_INITIAL_DEPTH,
        forall|j: int|
            0 <= j < fields.len() ==> Some(fields[j]) == field_at(
                t,
                #[trigger] field_address(ram_address, j),
                moment,
                depth,
            ),
    ensures
        fields_at(t, ram_address, moment, depth) == Some(fields),
{
    assert(fields_at(t, ram_address, moment, depth) is Some);
    let res = fields_at(t, ram_address, moment, depth)->0;
    assert forall|j: int| 0 <= j < fields.len() implies res[j] == fields[j] by {
        assert(Some(fields[j]) == field_at(t, field_address(ram_address, j), moment, depth));
    }
    assert(res =~= fields);
}

/// The guess at what lies behind a pointer that was written to a register. None where something
/// that is to be looked at is out of reach.
pub open spec fn pointer_at(t: TraceModel, ram_address: RamAddress, moment: Moment) -> Option<
    PointerModel,
> {
    let to = fields_at(t, ram_address, moment, FIELD_SCAN_RECURSION_DEPTH as nat);
    let state = init_state(
        t,
        ram_address,
        moment.init_start,
        moment.init_end,
        MAX_UNINIT_LEN_PROFILE,
    );
    let access = access_state(
        t,
        ram_address,
        TimeRange::between(moment.trace_ind, moment.next_ind),
    );
    match (to, state, access) {
        (Some(to), Some(state), Some(access)) => Some(
            PointerModel {
                known_values: Set::empty().insert(ram_address),
                to,
                init_state_profile: InitializationStateProfile::of(state),
                access_state_profile: AccessStateProfile::of(access),
                ..PointerModel::empty()
            },
        ),
        _ => None,
    }
}

/// The unused memory in front of an address does not reach below address zero, and the address is
/// not the last one.
pub proof fn lemma_unused_before(
    t: TraceModel,
    address: RamAddress,
    start_ind: TraceId,
    end_ind: TraceId,
    max: Address,
)
    requires
        t.wf(),
    ensures
        init_state(t, address, start_ind, end_ind, max) matches Some(state) ==> {
            &&& 0 <= unused_before(state) <= address
            &&& max > 0 ==> address < Address::MAX
        },
{
    if let Some(state) = init_state(t, address, start_ind, end_ind, max) {
        if let InitializationState::Pattern { at_bulk_init: Some(_), .. } = state {
            lemma_bulk_range_covers(t, address, start_ind, end_ind);
            let r = bulk_range(t, address, start_ind, end_ind)->0;
            lemma_pattern_bound(
                t.mem,
                TimeRange::through(r.start_ind, r.end_ind),
                r.start_addr as int,
                r.end_addr as int,
                address - r.start_addr,
            );
        } else {
            lemma_first_from(
                0,
                max as int,
                present_below(
                    t.mem,
                    TimeRange::between(start_ind, end_ind),
                    address as int,
                ),
            );
        }
    }
}

/// Remembers the initialisation states of one window of the trace.
#[derive(Debug)]
pub struct InitStateCache<'a> {
    pub cache: FxHashMap<RamAddress, InitializationState>,
    pub start_ind: TraceId,
    pub end_ind: TraceId,
    pub tinfo: &'a TraceInfo,
    pub max_uninit_len: Address,
}

impl<'a> InitStateCache<'a> {
    /// What the cache remembers is true.
    pub open spec fn wf(&self) -> bool {
        &&& self.tinfo.wf()
        &&& forall|a: RamAddress| #[trigger]
            self.cache@.contains_key(a) ==> Some(self.cache@[a]) == self.state_of(a)
    }

    /// The initialisation state of an address in the window of the cache.
    pub open spec fn state_of(&self, a: RamAddress) -> Option<InitializationState> {
        init_state(self.tinfo@, a, self.start_ind, self.end_ind, self.max_uninit_len)
    }

    /// The cache answers for the same window.
    pub open spec fn same_window(&self, other: &Self) -> bool {
        &&& self.start_ind == other.start_ind
        &&& self.end_ind == other.end_ind
        &&& self.tinfo == other.tinfo
        &&& self.max_uninit_len == other.max_uninit_len
    }

    /// A cache that remembers nothing yet.
    pub fn new(
        tinfo: &'a TraceInfo,
        max_uninit_len: Address,
        start_ind: TraceId,
        end_ind: TraceId,
    ) -> (res: Self)
        requires
            tinfo.wf(),
        ensures
            res.wf(),
            res.tinfo == tinfo,
            res.start_ind == start_ind,
            res.end_ind == end_ind,
            res.max_uninit_len == max_uninit_len,
    {
        Self { cache: FxHashMap::default(), start_ind, end_ind, tinfo, max_uninit_len }
    }

    /// The initialisation state of an address in the window of the cache.
    pub fn get(&mut self, ram_address: RamAddress) -> (res: Option<InitializationState>)
        requires
            old(self).wf(),
        ensures
            final(self).wf(),
            final(self).same_window(old(self)),
            res == old(self).state_of(ram_address),
    {
        if let Some(state) = map_get(&self.cache, &ram_address) {
            return Some(*state);
        }
        let state = get_initialization_state(
            self.tinfo,
            ram_address,
            self.start_ind,
            self.end_ind,
            self.max_uninit_len,
        );
        if let Some(state) = state {
            map_insert(&mut self.cache, ram_address, state);
        }
        state
    }
}

/// The word at an address, and zero where it is not there.
fn read_word_or_zero(tinfo: &TraceInfo, time: TimeRange, a: Address) -> (res: u32)
    requires
        tinfo.wf(),
        a + 4 <= Address::MAX,
    ensures
        res == word_or_zero(tinfo@.mem, time, a as int),
{
    proof {
        lemma_ram_history(tinfo.trace.events@);
    }
    match tinfo.mem.mem_view_at(time).read::<u32>(a) {
        Some(word) => word,
        None => 0,
    }
}

/// The value of a field.
fn read_field(tinfo: &TraceInfo, a: RamAddress, trace_ind: TraceId, next_ind: TraceId) -> (res: u32)
    requires
        tinfo.wf(),
        a + 4 <= Address::MAX,
    ensures
        res == field_value(tinfo@.mem, a, trace_ind, next_ind),
{
    let word = read_word_or_zero(tinfo, TimeRange::between(0, trace_ind), a);
    if word != 0 {
        return word;
    }
    match tinfo.mem.get_writes_between(a, trace_ind, next_ind) {
        Some(writes) => {
            if writes.len() == 0 {
                0
            } else if writes.len() == 1 {
                read_word_or_zero(tinfo, TimeRange::between(writes[0].trace_ind, next_ind), a)
            } else {
                read_word_or_zero(
                    tinfo,
                    TimeRange::between(writes[0].trace_ind, writes[1].trace_ind),
                    a,
                )
            }
        },
        None => 0,
    }
}

/// The number of bytes in front of an address that may belong to an unused buffer.
fn unused_len_before(state: &InitializationState) -> (res: usize)
    ensures
        res == unused_before(*state),
{
    match state {
        InitializationState::Uninitialized { len_before, .. } => *len_before,
        InitializationState::Pattern { at_bulk_init, .. } => match at_bulk_init {
            Some(pattern) => if pattern.value != 0 || pattern.pattern_len != 1 {
                0
            } else {
                pattern.repetitions_before
            },
            None => 0,
        },
        InitializationState::Used { .. } => 0,
    }
}

/// The size of the buffer that may end at `value`.
fn find_pre_buf_size(tinfo: &TraceInfo, value: RamAddress, state: &InitializationState) -> (res:
    Option<u64>)
    requires
        unused_before(*state) <= value,
    ensures
        res is Some <==> pre_buf_size(tinfo@.mem, value, *state) is Some,
        res matches Some(size) ==> size == pre_buf_size(tinfo@.mem, value, *state)->0,
{
    if value % 2 == 0 {
        return Some(0);
    }
    let unused = unused_len_before(state) as u64;
    if unused == 0 {
        return None;
    }
    let ghost m = tinfo@.mem;
    let ghost end = unused + 1;
    let mut offset: u64 = 0;
    while offset <= unused
        invariant
            m == tinfo@.mem,
            0 < unused <= value,
            offset <= unused + 1,
            end == unused + 1,
            first_from(0, end, read_below(m, value)) == first_from(
                offset as int,
                end,
                read_below(m, value),
            ),
            value % 2 != 0,
            unused == unused_before(*state),
        decreases unused + 1 - offset,
    {
        if map_contains(&tinfo.mem.reads, &(value - offset as u32)) {
            let first = offset;
            while offset <= unused
                invariant
                    m == tinfo@.mem,
                    0 < unused <= value,
                    first <= offset <= unused + 1,
                    end == unused + 1,
                    first_from(0, end, read_below(m, value)) == Some(first as int),
                    first_from(first as int, end, unread_below(m, value)) == first_from(
                        offset as int,
                        end,
                        unread_below(m, value),
                    ),
                    value % 2 != 0,
                    unused == unused_before(*state),
                decreases unused + 1 - offset,
            {
                if !map_contains(&tinfo.mem.reads, &(value - offset as u32)) {
                    return Some(offset);
                }
                offset += 1;
            }
            return Some(offset);
        }
        offset += 1;
    }
    None
}

/// A table with at most one entry.
fn single_pre_size(value: RamAddress, size: Option<u64>) -> (res: FxHashMap<RamAddress, u64>)
    ensures
        res@ == (match size {
            Some(size) => Map::empty().insert(value, size),
            None => Map::empty(),
        }),
{
    let mut res: FxHashMap<RamAddress, u64> = FxHashMap::default();
    if let Some(size) = size {
        map_insert(&mut res, value, size);
    }
    res
}

/// A set of one address.
fn single_address(value: RamAddress) -> (res: FxHashSet<RamAddress>)
    ensures
        res@ == Set::empty().insert(value),
{
    let mut res: FxHashSet<RamAddress> = FxHashSet::default();
    set_insert(&mut res, value);
    res
}

/// Guesses the type of the field at `a`.
fn gather_field(
    tinfo: &TraceInfo,
    a: RamAddress,
    trace_ind: TraceId,
    next_ind: TraceId,
    remaining_depth: usize,
    init_state_cache: &mut InitStateCache<'_>,
) -> (res: Option<FieldTypeGuess>)
    requires
        tinfo.wf(),
        a + 4 <= Address::MAX,
        remaining_depth > 0,
        old(init_state_cache).wf(),
        old(init_state_cache).tinfo == tinfo,
        old(init_state_cache).max_uninit_len == MAX_UNINIT_LEN_PROFILE,
    ensures
        final(init_state_cache).wf(),
        final(init_state_cache).same_window(old(init_state_cache)),
        field_of(res) == field_at(
            tinfo@,
            a,
            moment_of(*old(init_state_cache), trace_ind, next_ind),
            remaining_depth as nat,
        ),
    decreases remaining_depth, 0int,
{
    let ghost moment = moment_of(*init_state_cache, trace_ind, next_ind);
    proof {
        reveal(field_guess);
    }
    let value = read_field(tinfo, a, trace_ind, next_ind);
    if value == 0 {
        return Some(FieldTypeGuess::Zero);
    }
    if tinfo.mem_map.is_ram(value) {
        let init_state = match init_state_cache.get(value) {
            Some(state) => state,
            None => {
                return None;
            },
        };
        let access_state = match get_access_state(
            tinfo,
            value,
            &TimeRange::between(trace_ind, next_ind),
        ) {
            Some(state) => state,
            None => {
                return None;
            },
        };
        proof {
            lemma_unused_before(
                tinfo@,
                value,
                moment.init_start,
                moment.init_end,
                MAX_UNINIT_LEN_PROFILE,
            );
        }
        let pre_size = find_pre_buf_size(tinfo, value, &init_state);
        let to = match gather_type_info_recursive(
            tinfo,
            value,
            trace_ind,
            next_ind,
            remaining_depth - 1,
            init_state_cache,
        ) {
            Some(to) => to,
            None => {
                return None;
            },
        };
        Some(
            FieldTypeGuess::Pointer {
                pointer: PointerType {
                    known_values: single_address(value),
                    includes_mmio: false,
                    includes_misaligned_mmio: false,
                    includes_null: false,
                    to,
                    init_state_profile: InitializationStateProfile::new(&init_state),
                    access_state_profile: AccessStateProfile::new(&access_state),
                    potential_pre_buf_sizes: single_pre_size(value, pre_size),
                },
            },
        )
    } else if tinfo.mem_map.is_mmio(value) {
        let pointer = PointerType {
            includes_mmio: true,
            includes_misaligned_mmio: !is_pointer_aligned(value),
            potential_pre_buf_sizes: single_pre_size(value, Some(0)),
            ..PointerType::default()
        };
        Some(FieldTypeGuess::Pointer { pointer })
    } else {
        Some(FieldTypeGuess::HighEntropy { val: value })
    }
}

/// The contents of a guess that may be absent.
pub open spec fn field_of(res: Option<FieldTypeGuess>) -> Option<FieldModel> {
    match res {
        Some(field) => Some(field@),
        None => None,
    }
}

/// The contents of guesses that may be absent.
pub open spec fn fields_of(res: Option<Vec<FieldTypeGuess>>) -> Option<Seq<FieldModel>> {
    match res {
        Some(fields) => Some(field_views(fields@)),
        None => None,
    }
}

/// The contents of a pointer that may be absent.
pub open spec fn pointer_of(res: Option<PointerType>) -> Option<PointerModel> {
    match res {
        Some(pointer) => Some(pointer@),
        None => None,
    }
}

/// The moment that a guess is made for with the initialisation states of a cache.
pub open spec fn moment_of(
    cache: InitStateCache<'_>,
    trace_ind: TraceId,
    next_ind: TraceId,
) -> Moment {
    Moment { trace_ind, next_ind, init_start: cache.start_ind, init_end: cache.end_ind }
}

/// Guesses the types of the fields from `ram_address` on, following pointers.
fn gather_type_info_recursive(
    tinfo: &TraceInfo,
    ram_address: RamAddress,
    trace_ind: TraceId,
    next_ind: TraceId,
    remaining_depth: usize,
    init_state_cache: &mut InitStateCache<'_>,
) -> (res: Option<Vec<FieldTypeGuess>>)
    requires
        tinfo.wf(),
        old(init_state_cache).wf(),
        old(init_state_cache).tinfo == tinfo,
        old(init_state_cache).max_uninit_len == MAX_UNINIT_LEN_PROFILE,
    ensures
        final(init_state_cache).wf(),
        final(init_state_cache).same_window(old(init_state_cache)),
        fields_of(res) == fields_at(
            tinfo@,
            ram_address,
            moment_of(*old(init_state_cache), trace_ind, next_ind),
            remaining_depth as nat,
        ),
    decreases remaining_depth, 1int,
{
    let ghost moment = moment_of(*init_state_cache, trace_ind, next_ind);
    let ghost depth = remaining_depth as nat;
    let mut fields: Vec<FieldTypeGuess> = Vec::new();
    if remaining_depth == 0 {
        assert(field_views(fields@) =~= Seq::empty());
        return Some(fields);
    }
    if (FIELD_SCAN_INITIAL_DEPTH * POINTER_SIZE) as Address > Address::MAX - ram_address {
        return None;
    }
    let mut i: usize = 0;
    while i < FIELD_SCAN_INITIAL_DEPTH
        invariant
            tinfo.wf(),
            init_state_cache.wf(),
            init_state_cache.same_window(old(init_state_cache)),
            init_state_cache.tinfo == tinfo,
            init_state_cache.max_uninit_len == MAX_UNINIT_LEN_PROFILE,
            moment == moment_of(*init_state_cache, trace_ind, next_ind),
            moment == moment_of(*old(init_state_cache), trace_ind, next_ind),
            remaining_depth > 0,
            depth == remaining_depth,
            ram_address + 4 * FIELD_SCAN_INITIAL_DEPTH <= Address::MAX,
            i <= FIELD_SCAN_INITIAL_DEPTH,
            fields@.len() == i,
            forall|j: int|
                0 <= j < i ==> Some((#[trigger] fields@[j])@) == field_at(
                    tinfo@,
                    field_address(ram_address, j),
                    moment,
                    depth,
                ),
        decreases FIELD_SCAN_INITIAL_DEPTH - i,
    {
        let a = ram_address + (i * POINTER_SIZE) as Address;
        assert(a == field_address(ram_address, i as int));
        match gather_field(tinfo, a, trace_ind, next_ind, remaining_depth, init_state_cache) {
            Some(field) => fields.push(field),
            None => {
                assert(field_at(
                    tinfo@,
                    field_address(ram_address, i as int),
                    moment,
                    depth,
                ) is None);
                return None;
            },
        }
        i += 1;
    }
    proof {
        let views = field_views(fields@);
        assert forall|j: int| 0 <= j < views.len() implies Some(views[j]) == field_at(
            tinfo@,
            #[trigger] field_address(ram_address, j),
            moment,
            depth,
        ) by {
            assert(views[j] == fields@[j]@);
        }
        lemma_fields_at(tinfo@, ram_address, moment, depth, views);
    }
    Some(fields)
}

/// Guesses what lies behind a pointer that was written to a register.
pub fn gather_type_info(
    tinfo: &TraceInfo,
    ram_address: RamAddress,
    trace_ind: TraceId,
    next_ind: TraceId,
    init_state_cache: &mut InitStateCache<'_>,
) -> (res: Option<PointerType>)
    requires
        tinfo.wf(),
        old(init_state_cache).wf(),
        old(init_state_cache).tinfo == tinfo,
        old(init_state_cache).max_uninit_len == MAX_UNINIT_LEN_PROFILE,
    ensures
        final(init_state_cache).wf(),
        final(init_state_cache).same_window(old(init_state_cache)),
        pointer_of(res) == pointer_at(
            tinfo@,
            ram_address,
            moment_of(*old(init_state_cache), trace_ind, next_ind),
        ),
{
    let to = match gather_type_info_recursive(
        tinfo,
        ram_address,
        trace_ind,
        next_ind,
        FIELD_SCAN_RECURSION_DEPTH,
        init_state_cache,
    ) {
        Some(to) => to,
        None => {
            return None;
        },
    };
    let init_state = match init_state_cache.get(ram_address) {
        Some(state) => state,
        None => {
            return None;
        },
    };
    let access_state = match get_access_state(
        tinfo,
        ram_address,
        &TimeRange::between(trace_ind, next_ind),
    ) {
        Some(state) => state,
        None => {
            return None;
        },
    };
    Some(
        PointerType {
            known_values: single_address(ram_address),
            to,
            init_state_profile: InitializationStateProfile::new(&init_state),
            access_state_profile: AccessStateProfile::new(&access_state),
            ..PointerType::default()
        },
    )
}

} // verus!
