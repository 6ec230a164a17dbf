//! What the guesses at the types behind pointers say of the trace, and how they are merged.

use super::access_state::access_state;
use super::event_laws::{accesses, lemma_history_events};
use super::init_state::init_state;
use super::merge::{merged_field, merged_pointer, FieldModel, PointerModel};
use super::pointer_table::{
    entry_scan, field_writes, pointer_table, table_from, with_pointer, written_word, EntryScan,
};
use super::register_analysis::{merged_guess, with_table};
use super::result::ResultModel;
use super::trace_info::{in_address_space, ram_history, supported_trace, TraceModel};
use super::type_info::{
    field_address, field_at, field_guess, field_value, fields_at, pointer_at, pre_buf_size,
    read_below, unread_below, unused_before, Moment,
};
use super::types::{InitializationState, InitializationStateProfile};
use crate::common::{Address, RamAddress, TraceId};
use crate::hoedur::bintrace::{AccessType, TraceEvent};
use crate::mem_view::{events_between, index_since, since, HistoryEntry, HistoryModel, TimeRange};
use crate::scan::{first_from, lemma_first_from};
use crate::tables::seq_at;
use vstd::prelude::*;

verus! {

/// What either of two pointers is known to be, the merged one is known to be, and nothing else: its
/// values are those of both, and it leads to registers, to misaligned registers or to nothing, and
/// its buffers were seen in a state, where those of one of them were.
pub proof fn lemma_merge_keeps(own: PointerModel, other: PointerModel)
    ensures
        ({
            let merged = merged_pointer(own, other);
            &&& forall|v: RamAddress| #[trigger]
                merged.known_values.contains(v) <==> own.known_values.contains(v)
                    || other.known_values.contains(v)
            &&& merged.includes_mmio <==> own.includes_mmio || other.includes_mmio
            &&& merged.includes_misaligned_mmio <==> own.includes_misaligned_mmio
                || other.includes_misaligned_mmio
            &&& merged.includes_null <==> own.includes_null || other.includes_null
            &&& merged.access_state_profile.has_read_before_write
                <==> own.access_state_profile.has_read_before_write
                || other.access_state_profile.has_read_before_write
            &&& merged.access_state_profile.has_write_before_read
                <==> own.access_state_profile.has_write_before_read
                || other.access_state_profile.has_write_before_read
            &&& merged.access_state_profile.has_no_access
                <==> own.access_state_profile.has_no_access
                || other.access_state_profile.has_no_access
            &&& merged.init_state_profile.has_used <==> own.init_state_profile.has_used
                || other.init_state_profile.has_used
            &&& merged.init_state_profile.has_pattern <==> own.init_state_profile.has_pattern
                || other.init_state_profile.has_pattern
            &&& merged.init_state_profile.has_uninitialized
                <==> own.init_state_profile.has_uninitialized
                || other.init_state_profile.has_uninitialized
            &&& merged.init_state_profile.all_writes_trivial
                <==> own.init_state_profile.all_writes_trivial
                && other.init_state_profile.all_writes_trivial
        }),
{
    if own.known_values.is_empty() {
        assert(own.known_values =~= Set::empty());
    }
}

/// Of two sizes of the buffer that may end at an address the smaller one counts, and the fields of
/// pointers with known values are merged one by one; the number of fields stays that of the first
/// one.
pub proof fn lemma_merge_parts(own: PointerModel, other: PointerModel)
    requires
        exists|v: RamAddress| #[trigger] own.known_values.contains(v),
    ensures
        ({
            let merged = merged_pointer(own, other);
            let a = own.potential_pre_buf_sizes;
            let b = other.potential_pre_buf_sizes;
            let sizes = merged.potential_pre_buf_sizes;
            &&& forall|v: RamAddress| #[trigger]
                sizes.contains_key(v) <==> a.contains_key(v) || b.contains_key(v)
            &&& forall|v: RamAddress|
                sizes.contains_key(v) ==> {
                    &&& a.contains_key(v) ==> #[trigger] sizes[v] <= a[v]
                    &&& b.contains_key(v) ==> sizes[v] <= b[v]
                    &&& (a.contains_key(v) && sizes[v] == a[v]) || (b.contains_key(v) && sizes[v]
                        == b[v])
                }
            &&& merged.to.len() == own.to.len()
            &&& forall|i: int|
                0 <= i < own.to.len() ==> #[trigger] merged.to[i] == if i < other.to.len() {
                    merged_field(own.to[i], other.to[i])
                } else {
                    own.to[i]
                }
        }),
{
    let v = choose|v: RamAddress| #[trigger] own.known_values.contains(v);
    assert(!own.known_values.is_empty());
}

/// A field that was zero at times is what it was otherwise, and a pointer of it may lead to nothing.
/// A field that held something that is no pointer is no pointer.
pub proof fn lemma_merge_fields(own: FieldModel, other: FieldModel)
    ensures
        own is Zero ==> merged_field(own, other) == other,
        own is HighEntropy ==> merged_field(own, other) == own,
        own is Pointer && other is HighEntropy ==> merged_field(own, other) == other,
        own is Pointer && other is Zero ==> merged_field(own, other) == (FieldModel::Pointer {
            pointer: PointerModel { includes_null: true, ..own->pointer },
        }),
        own is Pointer && other is Pointer ==> merged_field(own, other) == (FieldModel::Pointer {
            pointer: merged_pointer(own->pointer, other->pointer),
        }),
{
}

/// The pointers that are merged over all results of a register: there is a guess where one of them
/// has one, and it has the known values of all, and leads to registers where one of them does.
pub proof fn lemma_merged_guess(results: Seq<ResultModel>)
    ensures
        merged_guess(results) is Some <==> exists|i: int|
            0 <= i < results.len() && (#[trigger] results[i]).raw_type_guess is Some,
        merged_guess(results) matches Some(guess) ==> {
            &&& forall|v: RamAddress| #[trigger]
                guess.known_values.contains(v) <==> exists|i: int|
                    0 <= i < results.len() && ((#[trigger] results[i]).raw_type_guess matches Some(
                        p,
                    ) && p.known_values.contains(v))
            &&& guess.includes_mmio <==> exists|i: int|
                0 <= i < results.len() && ((#[trigger] results[i]).raw_type_guess matches Some(p)
                    && p.includes_mmio)
        },
    decreases results.len(),
{
    if results.len() > 0 {
        let rest = results.drop_last();
        let n = rest.len() as int;
        lemma_merged_guess(rest);
        assert(results[n] == results.last());
        assert forall|i: int| 0 <= i < n implies #[trigger] results[i] == rest[i] by {}
        if let (Some(a), Some(b)) = (merged_guess(rest), results.last().raw_type_guess) {
            lemma_merge_keeps(a, b);
        }
        if merged_guess(rest) is Some {
            let i = choose|i: int|
                0 <= i < rest.len() && (#[trigger] rest[i]).raw_type_guess is Some;
            assert(results[i].raw_type_guess is Some);
        }
        if let Some(guess) = merged_guess(results) {
            assert forall|v: RamAddress| #[trigger]
                guess.known_values.contains(v) <==> exists|i: int|
                0 <= i < results.len() && ((#[trigger] results[i]).raw_type_guess matches Some(p)
                    && p.known_values.contains(v)) by {
                if merged_guess(rest) is Some && merged_guess(rest)->0.known_values.contains(v) {
                    let i = choose|i: int|
                        0 <= i < rest.len() && ((#[trigger] rest[i]).raw_type_guess matches Some(p)
                            && p.known_values.contains(v));
                    assert(results[i] == rest[i]);
                }
                if exists|i: int|
                    0 <= i < results.len() && ((#[trigger] results[i]).raw_type_guess matches Some(
                        p,
                    ) && p.known_values.contains(v)) {
                    let i = choose|i: int|
                        0 <= i < results.len() && ((
                        #[trigger] results[i]).raw_type_guess matches Some(p)
                            && p.known_values.contains(v));
                    if i < n {
                        assert(rest[i] == results[i]);
                    }
                }
            }
            if merged_guess(rest) is Some && merged_guess(rest)->0.includes_mmio {
                let i = choose|i: int|
                    0 <= i < rest.len() && ((#[trigger] rest[i]).raw_type_guess matches Some(p)
                        && p.includes_mmio);
                assert(results[i] == rest[i]);
            }
            if exists|i: int|
                0 <= i < results.len() && ((#[trigger] results[i]).raw_type_guess matches Some(p)
                    && p.includes_mmio) {
                let i = choose|i: int|
                    0 <= i < results.len() && ((#[trigger] results[i]).raw_type_guess matches Some(
                        p,
                    ) && p.includes_mmio);
                if i < n {
                    assert(rest[i] == results[i]);
                }
            }
        }
    }
}

/// The entries of a table of pointers are merged into the fields at the same places, and into no
/// others.
pub proof fn lemma_with_table(guess: PointerModel, table: Seq<PointerModel>, n: int)
    requires
        0 <= n <= table.len(),
    ensures
        ({
            let merged = with_table(guess, table, n);
            &&& merged == PointerModel { to: merged.to, ..guess }
            &&& merged.to.len() == guess.to.len()
            &&& forall|i: int|
                0 <= i < guess.to.len() ==> #[trigger] merged.to[i] == if i < n {
                    merged_field(guess.to[i], FieldModel::Pointer { pointer: table[i] })
                } else {
                    guess.to[i]
                }
        }),
    decreases n,
{
    if n > 0 {
        lemma_with_table(guess, table, n - 1);
    }
}

/// The profile of a state tells which of the three it is, and whether only values were seen that
/// memory is typically initialised with: always where it is uninitialised, never where it is in use,
/// and for a pattern where its value is one, and so is that of the initialisation around it.
pub proof fn lemma_state_profile(state: InitializationState)
    ensures
        ({
            let profile = InitializationStateProfile::of(state);
            let typical = |v: u64| v == 0 || v == 0xff || v == 0xffff || v == 0xffffffff;
            &&& profile.has_used <==> state is Used
            &&& profile.has_pattern <==> state is Pattern
            &&& profile.has_uninitialized <==> state is Uninitialized
            &&& profile.all_writes_trivial <==> match state {
                InitializationState::Uninitialized { .. } => true,
                InitializationState::Used { .. } => false,
                InitializationState::Pattern { at_config, at_bulk_init, .. } => typical(
                    at_config.value,
                ) && (at_bulk_init is None || typical(at_bulk_init->0.value)),
            }
        }),
{
}

/// A field is guessed by its value: zero, a pointer to memory, a pointer to a register, or something
/// else. A pointer to memory has that value, tells how its buffer was initialised and accessed, and
/// what lies behind it; one to a register tells whether it is aligned.
pub proof fn lemma_field_guess(
    t: TraceModel,
    a: RamAddress,
    moment: Moment,
    to: Option<Seq<FieldModel>>,
)
    ensures
        ({
            let value = field_value(t.mem, a, moment.trace_ind, moment.next_ind);
            let state = init_state(t, value, moment.init_start, moment.init_end, 8);
            let access = access_state(
                t,
                value,
                TimeRange::between(moment.trace_ind, moment.next_ind),
            );
            let guess = field_guess(t, a, moment, to);
            &&& value == 0 ==> guess == Some(FieldModel::Zero)
            &&& value != 0 && !t.map.is_ram(value) && !t.map.is_mmio(value) ==> guess == Some(
                FieldModel::HighEntropy { val: value },
            )
            &&& value != 0 && !t.map.is_ram(value) && t.map.is_mmio(value) ==> (guess matches Some(
                FieldModel::Pointer { pointer },
            ) && {
                &&& pointer.includes_mmio && !pointer.includes_null
                &&& pointer.includes_misaligned_mmio <==> value % 4 != 0
                &&& pointer.known_values.is_empty() && pointer.to.len() == 0
                &&& pointer.potential_pre_buf_sizes.contains_key(value)
                &&& pointer.potential_pre_buf_sizes[value] == 0
            })
            &&& value != 0 && t.map.is_ram(value) ==> {
                &&& guess is Some <==> state is Some && access is Some && to is Some
                &&& guess is Some ==> (guess matches Some(FieldModel::Pointer { pointer }) && {
                    let ends = pointer.potential_pre_buf_sizes;
                    let size = pre_buf_size(t.mem, value, state->0);
                    &&& forall|v: RamAddress| #[trigger]
                        pointer.known_values.contains(v) <==> v == value
                    &&& !pointer.includes_mmio && !pointer.includes_misaligned_mmio
                        && !pointer.includes_null
                    &&& Some(pointer.to) == to
                    &&& pointer.init_state_profile == InitializationStateProfile::of(state->0)
                    &&& pointer.init_state_profile.has_used <==> state->0 is Used
                    &&& pointer.init_state_profile.has_pattern <==> state->0 is Pattern
                    &&& pointer.init_state_profile.has_uninitialized <==> state->0 is Uninitialized
                    &&& pointer.access_state_profile.has_read_before_write
                        <==> access->0 is ReadBeforeWrite
                    &&& pointer.access_state_profile.has_write_before_read
                        <==> access->0 is WriteBeforeRead
                    &&& pointer.access_state_profile.has_no_access <==> access->0 is NoAccesses
                    &&& forall|v: RamAddress| #[trigger]
                        ends.contains_key(v) <==> v == value && size is Some
                    &&& size matches Some(size) ==> ends[value] == size as u64
                })
            }
        }),
{
    reveal(field_guess);
}

/// The fields behind an address are guessed at sixteen consecutive words, each with what lies behind
/// it, one level less deep; at depth zero there are none.
pub proof fn lemma_fields_at(t: TraceModel, base: RamAddress, moment: Moment, depth: nat)
    ensures
        depth == 0 ==> fields_at(t, base, moment, depth) == Some(Seq::<FieldModel>::empty()),
        depth > 0 ==> (fields_at(t, base, moment, depth) is Some <==> base + 64 <= Address::MAX
            && forall|i: int|
            0 <= i < 16 ==> field_at(t, #[trigger] field_address(base, i), moment, depth) is Some),
        depth > 0 ==> (fields_at(t, base, moment, depth) matches Some(fields) ==> {
            &&& fields.len() == 16
            &&& base + 64 <= Address::MAX
            &&& forall|i: int|
                0 <= i < 16 ==> Some(#[trigger] fields[i]) == field_at(
                    t,
                    (base + 4 * i) as RamAddress,
                    moment,
                    depth,
                )
        }),
{
    if depth > 0 {
        if let Some(fields) = fields_at(t, base, moment, depth) {
            assert forall|i: int| 0 <= i < 16 implies Some(#[trigger] fields[i]) == field_at(
                t,
                (base + 4 * i) as RamAddress,
                moment,
                depth,
            ) by {
                assert(field_address(base, i) == (base + 4 * i) as RamAddress);
            }
        }
    }
}

/// What lies behind a pointer that was written to a register is guessed three levels deep.
pub proof fn lemma_pointer_at(t: TraceModel, a: RamAddress, moment: Moment)
    ensures
        ({
            let state = init_state(t, a, moment.init_start, moment.init_end, 8);
            let access = access_state(
                t,
                a,
                TimeRange::between(moment.trace_ind, moment.next_ind),
            );
            let to = fields_at(t, a, moment, 3);
            &&& pointer_at(t, a, moment) is Some <==> state is Some && access is Some && to is Some
            &&& (pointer_at(t, a, moment) matches Some(pointer) ==> {
                &&& forall|v: RamAddress| #[trigger]
                    pointer.known_values.contains(v) <==> v == a
                &&& !pointer.includes_mmio && !pointer.includes_misaligned_mmio
                    && !pointer.includes_null
                &&& Some(pointer.to) == to
                &&& pointer.init_state_profile == InitializationStateProfile::of(state->0)
                &&& pointer.init_state_profile.has_used <==> state->0 is Used
                &&& pointer.init_state_profile.has_pattern <==> state->0 is Pattern
                &&& pointer.init_state_profile.has_uninitialized <==> state->0 is Uninitialized
                &&& pointer.access_state_profile.has_read_before_write
                    <==> access->0 is ReadBeforeWrite
                &&& pointer.access_state_profile.has_write_before_read
                    <==> access->0 is WriteBeforeRead
                &&& pointer.access_state_profile.has_no_access <==> access->0 is NoAccesses
                &&& pointer.potential_pre_buf_sizes.dom().is_empty()
            })
        }),
{
}

/// A byte has a history where there is an access to it.
proof fn lemma_ever_accessed(events: Seq<TraceEvent>, access_type: AccessType, a: Address)
    requires
        supported_trace(events),
    ensures
        ram_history(events).of_type(access_type).contains_key(a) <==> exists|i: int| #[trigger]
            accesses(events, i, access_type, a as int),
    decreases events.len(),
{
    if events.len() > 0 {
        let earlier = events.drop_last();
        let n = earlier.len() as int;
        assert forall|i: int| 0 <= i < earlier.len() implies in_address_space(
            (#[trigger] earlier[i]).access(),
        ) by {
            assert(earlier[i] == events[i]);
        }
        lemma_ever_accessed(earlier, access_type, a);
        assert(events[n] == events.last());
        assert forall|i: int| i < n implies (#[trigger] accesses(
            events,
            i,
            access_type,
            a as int,
        ) <==> accesses(earlier, i, access_type, a as int)) by {
            if 0 <= i {
                assert(earlier[i] == events[i]);
            }
        }
        if exists|i: int| #[trigger] accesses(events, i, access_type, a as int) {
            let i = choose|i: int| #[trigger] accesses(events, i, access_type, a as int);
            if i < n {
                assert(accesses(earlier, i, access_type, a as int));
            }
        }
        if ram_history(earlier).of_type(access_type).contains_key(a) {
            let i = choose|i: int| #[trigger] accesses(earlier, i, access_type, a as int);
            assert(accesses(events, i, access_type, a as int));
        }
        if accesses(events, n, access_type, a as int) {
            assert(ram_history(events).of_type(access_type).contains_key(a));
        }
    }
}

/// The byte at `a` is read at some time.
pub open spec fn is_read(events: Seq<TraceEvent>, a: int) -> bool {
    exists|i: int| #[trigger] accesses(events, i, AccessType::Read, a)
}

/// The memory in front of an address that may belong to a buffer is what is uninitialised there, or
/// what the initialisation of the buffer set to zero byte by byte.
pub proof fn lemma_unused_before(state: InitializationState)
    ensures
        state matches InitializationState::Uninitialized { len_before, .. } ==> unused_before(state)
            == len_before,
        state is Used ==> unused_before(state) == 0,
        state matches InitializationState::Pattern { at_bulk_init, .. } ==> unused_before(state)
            == match at_bulk_init {
            Some(pattern) => if pattern.value == 0 && pattern.pattern_len == 1 {
                pattern.repetitions_before as int
            } else {
                0
            },
            None => 0,
        },
{
}

/// The size of the buffer that may end at an odd address: from that address, its last byte, back
/// over bytes that are never read, and then over all bytes that are read, as far as the unused
/// memory goes. An even address does not look like the end of a buffer.
pub proof fn lemma_pre_buf_size(t: TraceModel, value: RamAddress, state: InitializationState)
    requires
        t.wf(),
        0 <= unused_before(state) <= value,
    ensures
        ({
            let unused = unused_before(state);
            let read = |k: int| is_read(t.events, value - k);
            match pre_buf_size(t.mem, value, state) {
                Some(size) => {
                    ||| value % 2 == 0 && size == 0
                    ||| value % 2 != 0 && 0 < size <= unused + 1 && unused > 0 && (size == unused
                        + 1 || !read(size)) && exists|first: int|
                        0 <= first < size && #[trigger] read(first) && (forall|k: int|
                            0 <= k < first ==> !#[trigger] read(k))
                            && (forall|k: int| first <= k < size ==> #[trigger] read(k))
                },
                None => value % 2 != 0 && (unused == 0 || forall|k: int|
                    0 <= k <= unused ==> !#[trigger] read(k)),
            }
        }),
{
    let unused = unused_before(state);
    let read = |k: int| is_read(t.events, value - k);
    let p = read_below(t.mem, value);
    let q = unread_below(t.mem, value);
    assert forall|k: int| 0 <= k <= unused implies (#[trigger] read(k) <==> p(k)) && (read(k)
        <==> !q(k)) by {
        lemma_ever_accessed(t.events, AccessType::Read, (value - k) as Address);
    }
    lemma_first_from(0, unused + 1, p);
    if let Some(first) = first_from(0, unused + 1, p) {
        lemma_first_from(first, unused + 1, q);
        let size = match first_from(first, unused + 1, q) {
            Some(end) => end,
            None => unused + 1,
        };
        assert(p(first));
        assert(read(first));
        assert forall|k: int| 0 <= k < first implies !#[trigger] read(k) by {
            assert(!p(k));
        }
        assert forall|k: int| first <= k < size implies #[trigger] read(k) by {
            assert(!q(k));
        }
        if size < unused + 1 {
            assert(q(size));
            assert(!read(size));
        }
    } else {
        assert forall|k: int| 0 <= k <= unused implies !#[trigger] read(k) by {
            assert(!p(k));
        }
    }
}

/// The entries of a history between two positions are the accesses from the first one on, before the
/// second one, in their order.
pub proof fn lemma_between_events(
    t: TraceModel,
    access_type: AccessType,
    a: Address,
    start: int,
    end: int,
)
    requires
        t.wf(),
        start <= end,
    ensures
        ({
            let found = events_between(seq_at(t.mem.of_type(access_type), a), start, end);
            &&& forall|i: int, j: int|
                0 <= i < j < found.len() ==> (#[trigger] found[i]).trace_ind < (
                #[trigger] found[j]).trace_ind
            &&& forall|j: int|
                0 <= j < found.len() ==> {
                    let i = (#[trigger] found[j]).trace_ind as int;
                    start <= i < end && accesses(t.events, i, access_type, a as int)
                }
            &&& forall|i: int|
                start <= i < end && #[trigger] accesses(t.events, i, access_type, a as int)
                    ==> exists|j: int|
                    0 <= j < found.len() && (#[trigger] found[j]).trace_ind == i
        }),
{
    let h = seq_at(t.mem.of_type(access_type), a);
    lemma_history_events(t.events, access_type, a);
    let from = index_since(h, 0, start);
    let to = index_since(h, from, end);
    lemma_first_from(0, h.len() as int, since(h, start));
    lemma_first_from(from, h.len() as int, since(h, end));
    let found = events_between(h, start, end);
    assert(0 <= from <= to <= h.len());
    assert forall|j: int| 0 <= j < found.len() implies {
        let i = (#[trigger] found[j]).trace_ind as int;
        start <= i < end && accesses(t.events, i, access_type, a as int)
    } by {
        assert(found[j] == h[from + j]);
        assert(!since(h, end)(from + j));
        assert(since(h, start)(from));
        if j > 0 {
            assert(h[from].trace_ind < h[from + j].trace_ind);
        }
    }
    assert forall|i: int| start <= i < end && #[trigger] accesses(
        t.events,
        i,
        access_type,
        a as int,
    ) implies exists|j: int| 0 <= j < found.len() && (#[trigger] found[j]).trace_ind == i by {
        let j = choose|j: int| 0 <= j < h.len() && (#[trigger] h[j]).trace_ind == i;
        if j < from {
            assert(!since(h, start)(j));
        } else if to <= j {
            assert(since(h, end)(to));
            if to < j {
                assert(h[to].trace_ind < h[j].trace_ind);
            }
        } else {
            assert(found[j - from] == h[j]);
        }
    }
}

/// The word at `a` that the writes from `from` on, before `to`, leave, and zero where they do not
/// write all of it.
pub open spec fn word_between(m: HistoryModel, from: int, to: int, a: RamAddress) -> u32 {
    match m.number_in(TimeRange::between(from as TraceId, to as TraceId), a as int, 4) {
        Some(word) => word as u32,
        None => 0,
    }
}

/// The value of a field is the word that was written before the configuration, where that is not
/// zero.
pub proof fn lemma_field_value_before(
    t: TraceModel,
    a: RamAddress,
    trace_ind: TraceId,
    next_ind: TraceId,
)
    requires
        word_between(t.mem, 0, trace_ind as int, a) != 0,
    ensures
        field_value(t.mem, a, trace_ind, next_ind) == word_between(t.mem, 0, trace_ind as int, a),
{
}

/// Where no word other than zero was written to a field before the configuration, its value is the
/// word that the first write to it after the configuration, at `first`, leaves, as it stands at
/// `until`: the position of the next write to it, or else that of the next configuration.
pub proof fn lemma_field_value_after(
    t: TraceModel,
    a: RamAddress,
    trace_ind: TraceId,
    next_ind: TraceId,
    first: int,
    until: int,
)
    requires
        t.wf(),
        word_between(t.mem, 0, trace_ind as int, a) == 0,
        trace_ind <= first < until <= next_ind,
        accesses(t.events, first, AccessType::Write, a as int),
        until == next_ind || accesses(t.events, until, AccessType::Write, a as int),
        forall|j: int|
            trace_ind <= j < until && #[trigger] accesses(t.events, j, AccessType::Write, a as int)
                ==> j == first,
    ensures
        field_value(t.mem, a, trace_ind, next_ind) == word_between(t.mem, first, until, a),
{
    lemma_between_events(t, AccessType::Write, a, trace_ind as int, next_ind as int);
    lemma_ever_accessed(t.events, AccessType::Write, a);
    let found = events_between(seq_at(t.mem.writes, a), trace_ind as int, next_ind as int);
    let m = choose|m: int| 0 <= m < found.len() && (#[trigger] found[m]).trace_ind == first;
    assert(accesses(t.events, found[0].trace_ind as int, AccessType::Write, a as int));
    assert(found[0].trace_ind == first);
    if until < next_ind {
        let n = choose|n: int| 0 <= n < found.len() && (#[trigger] found[n]).trace_ind == until;
        assert(0 < n);
        assert(accesses(t.events, found[1].trace_ind as int, AccessType::Write, a as int));
        assert(found[0].trace_ind < found[1].trace_ind);
        assert(found[1].trace_ind == until);
    } else if found.len() > 1 {
        assert(accesses(t.events, found[1].trace_ind as int, AccessType::Write, a as int));
        assert(found[0].trace_ind < found[1].trace_ind);
    }
}

/// A field that is not written with anything but zero before the configuration, nor between it and
/// the next one, is zero.
pub proof fn lemma_field_value_zero(
    t: TraceModel,
    a: RamAddress,
    trace_ind: TraceId,
    next_ind: TraceId,
)
    requires
        t.wf(),
        trace_ind <= next_ind,
        word_between(t.mem, 0, trace_ind as int, a) == 0,
        forall|j: int|
            trace_ind <= j < next_ind ==> !#[trigger] accesses(
                t.events,
                j,
                AccessType::Write,
                a as int,
            ),
    ensures
        field_value(t.mem, a, trace_ind, next_ind) == 0,
{
    lemma_between_events(t, AccessType::Write, a, trace_ind as int, next_ind as int);
    assert(t.mem.of_type(AccessType::Write) == t.mem.writes);
    let found = events_between(seq_at(t.mem.writes, a), trace_ind as int, next_ind as int);
    if found.len() > 0 {
        assert(accesses(t.events, found[0].trace_ind as int, AccessType::Write, a as int));
    }
}

/// The word at `a` that the write with the index `k` leaves is an aligned pointer to memory.
pub open spec fn leaves_pointer(
    t: TraceModel,
    a: RamAddress,
    writes: Seq<HistoryEntry>,
    k: int,
) -> bool {
    let word = written_word(t.mem, a as int, writes[k].trace_ind);
    word != 0 && t.map.is_ram(word) && word % 4 == 0
}

/// One of the first `n` writes leaves the word `v` at `a`.
pub open spec fn leaves(
    t: TraceModel,
    a: RamAddress,
    writes: Seq<HistoryEntry>,
    n: int,
    v: RamAddress,
) -> bool {
    exists|k: int|
        0 <= k < n && written_word(t.mem, a as int, (#[trigger] writes[k]).trace_ind) == v
}

/// The first `n` writes leave pointers, and the entry has their values and those that it had
/// before.
pub open spec fn gathers(
    t: TraceModel,
    a: RamAddress,
    writes: Seq<HistoryEntry>,
    n: int,
    before: Option<PointerModel>,
    entry: Option<PointerModel>,
) -> bool {
    &&& forall|k: int| 0 <= k < n ==> #[trigger] leaves_pointer(t, a, writes, k)
    &&& entry is Some <==> before is Some || n > 0
    &&& entry is Some ==> forall|v: RamAddress| #[trigger]
        entry->0.known_values.contains(v) <==> (before is Some && before->0.known_values.contains(
            v,
        )) || leaves(t, a, writes, n, v)
}

/// One more write in front.
proof fn lemma_gathers(
    t: TraceModel,
    a: RamAddress,
    writes: Seq<HistoryEntry>,
    n: int,
    before: Option<PointerModel>,
    merged: PointerModel,
    entry: Option<PointerModel>,
)
    requires
        0 <= n < writes.len(),
        leaves_pointer(t, a, writes, 0),
        forall|v: RamAddress| #[trigger]
            merged.known_values.contains(v) <==> (before is Some && before->0.known_values.contains(
                v,
            )) || v == written_word(t.mem, a as int, writes[0].trace_ind),
        gathers(t, a, writes.drop_first(), n, Some(merged), entry),
    ensures
        gathers(t, a, writes, n + 1, before, entry),
{
    let rest = writes.drop_first();
    assert forall|k: int| 0 <= k < n + 1 implies #[trigger] leaves_pointer(t, a, writes, k) by {
        if k > 0 {
            assert(leaves_pointer(t, a, rest, k - 1));
            assert(rest[k - 1] == writes[k]);
        }
    }
    assert forall|v: RamAddress| #[trigger] entry->0.known_values.contains(v) <==> (before is Some
        && before->0.known_values.contains(v)) || leaves(t, a, writes, n + 1, v) by {
        if leaves(t, a, rest, n, v) {
            let k = choose|k: int|
                0 <= k < n && written_word(t.mem, a as int, (#[trigger] rest[k]).trace_ind) == v;
            assert(writes[k + 1] == rest[k]);
        }
        if leaves(t, a, writes, n + 1, v) {
            let k = choose|k: int|
                0 <= k < n + 1 && written_word(
                    t.mem,
                    a as int,
                    (#[trigger] writes[k]).trace_ind,
                ) == v;
            if k > 0 {
                assert(rest[k - 1] == writes[k]);
            }
        }
        assert(writes[0] == writes[0]);
    }
}

/// The writes to an entry of a table: where all of them leave aligned pointers to memory, the entry
/// has these values and those that it had before, and so it has up to the first null pointer, which
/// ends the table. The first write that leaves anything else, before a null pointer, is one that no
/// table has.
pub proof fn lemma_entry_scan(
    t: TraceModel,
    a: RamAddress,
    moment: Moment,
    writes: Seq<HistoryEntry>,
    guess: Option<PointerModel>,
)
    ensures
        match entry_scan(t, a, moment, writes, guess) {
            EntryScan::Entry(entry) => gathers(t, a, writes, writes.len() as int, guess, entry),
            EntryScan::End(entry) => exists|n: int|
                0 <= n < writes.len() && #[trigger] gathers(t, a, writes, n, guess, entry)
                    && written_word(t.mem, a as int, writes[n].trace_ind) == 0,
            EntryScan::NoTable => exists|n: int|
                0 <= n < writes.len() && !(#[trigger] leaves_pointer(t, a, writes, n))
                    && written_word(t.mem, a as int, writes[n].trace_ind) != 0 && forall|k: int|
                    0 <= k < n ==> #[trigger] leaves_pointer(t, a, writes, k),
            EntryScan::OutOfReach => true,
        },
    decreases writes.len(),
{
    if writes.len() > 0 {
        let rest = writes.drop_first();
        let time = writes[0].trace_ind;
        let value = written_word(t.mem, a as int, time);
        let scan = entry_scan(t, a, moment, writes, guess);
        if scan is OutOfReach {
        } else if value == 0 {
            assert(gathers(t, a, writes, 0, guess, guess));
        } else if leaves_pointer(t, a, writes, 0) {
            let pointer = pointer_at(t, value, Moment { trace_ind: time, ..moment })->0;
            let merged = with_pointer(guess, pointer)->0;
            if guess is Some {
                lemma_merge_keeps(guess->0, pointer);
            }
            lemma_pointer_at(t, value, Moment { trace_ind: time, ..moment });
            lemma_entry_scan(t, a, moment, rest, Some(merged));
            match scan {
                EntryScan::Entry(entry) => lemma_gathers(
                    t,
                    a,
                    writes,
                    rest.len() as int,
                    guess,
                    merged,
                    entry,
                ),
                EntryScan::End(entry) => {
                    let n = choose|n: int|
                        0 <= n < rest.len() && #[trigger] gathers(
                            t,
                            a,
                            rest,
                            n,
                            Some(merged),
                            entry,
                        ) && written_word(t.mem, a as int, rest[n].trace_ind) == 0;
                    lemma_gathers(t, a, writes, n, guess, merged, entry);
                    assert(rest[n] == writes[n + 1]);
                },
                EntryScan::NoTable => {
                    let n = choose|n: int|
                        0 <= n < rest.len() && !(#[trigger] leaves_pointer(t, a, rest, n))
                            && written_word(t.mem, a as int, rest[n].trace_ind) != 0 && forall|
                            k: int,
                        | 0 <= k < n ==> #[trigger] leaves_pointer(t, a, rest, k);
                    assert(rest[n] == writes[n + 1]);
                    assert(!leaves_pointer(t, a, writes, n + 1));
                    assert forall|k: int| 0 <= k < n + 1 implies #[trigger] leaves_pointer(
                        t,
                        a,
                        writes,
                        k,
                    ) by {
                        if k > 0 {
                            assert(leaves_pointer(t, a, rest, k - 1));
                            assert(rest[k - 1] == writes[k]);
                        }
                    }
                },
                EntryScan::OutOfReach => {},
            }
        } else {
            assert(!leaves_pointer(t, a, writes, 0));
        }
    } else {
        assert(gathers(t, a, writes, 0, guess, guess));
    }
}

/// An entry that was zero and is written once is guessed as it stands at that write.
pub proof fn lemma_single_entry(
    t: TraceModel,
    a: RamAddress,
    moment: Moment,
    writes: Seq<HistoryEntry>,
)
    requires
        writes.len() == 1,
        leaves_pointer(t, a, writes, 0),
        a + 3 <= Address::MAX,
    ensures
        ({
            let time = writes[0].trace_ind;
            let value = written_word(t.mem, a as int, time);
            let pointer = pointer_at(
                t,
                value,
                Moment {
                    trace_ind: time,
                    next_ind: moment.next_ind,
                    init_start: moment.init_start,
                    init_end: moment.init_end,
                },
            );
            entry_scan(t, a, moment, writes, None) == match pointer {
                Some(pointer) => EntryScan::Entry(Some(pointer)),
                None => EntryScan::OutOfReach,
            }
        }),
{
    assert(writes.drop_first().len() == 0);
    let time = writes[0].trace_ind;
    let value = written_word(t.mem, a as int, time);
    if let Some(pointer) = pointer_at(t, value, Moment { trace_ind: time, ..moment }) {
        assert(entry_scan(t, a, moment, writes.drop_first(), Some(pointer)) == EntryScan::Entry(
            Some(pointer),
        ));
    }
}

/// What the field with the index `j` and the writes to it after the configuration come to.
pub open spec fn scan_at(
    t: TraceModel,
    base: RamAddress,
    fields: Seq<FieldModel>,
    moment: Moment,
    j: int,
) -> EntryScan {
    let a = (base + 4 * j) as RamAddress;
    entry_scan(
        t,
        a,
        moment,
        field_writes(t.mem, a, moment.trace_ind, moment.next_ind),
        if fields[j] is Pointer {
            Some(fields[j]->pointer)
        } else {
            None
        },
    )
}

/// The table does not go on with the field with the index `j`: there is none, it holds something
/// that is no pointer, it is zero and not written, or the first write to it is one of the null
/// pointer.
pub open spec fn stops_at(
    t: TraceModel,
    base: RamAddress,
    fields: Seq<FieldModel>,
    moment: Moment,
    j: int,
) -> bool {
    ||| j >= fields.len()
    ||| fields[j] is HighEntropy
    ||| fields[j] is Zero && field_writes(
        t.mem,
        (base + 4 * j) as RamAddress,
        moment.trace_ind,
        moment.next_ind,
    ).len() == 0
    ||| scan_at(t, base, fields, moment, j) == EntryScan::End(None)
}

/// The entries of a table are those of consecutive fields, from the first one on, up to a field that
/// it does not go on with, or to one that a null pointer is written to. There is no table at all
/// where one of the fields up to there is written with something that is no pointer.
pub proof fn lemma_table_entries(
    t: TraceModel,
    base: RamAddress,
    fields: Seq<FieldModel>,
    moment: Moment,
    i: int,
    table: Seq<PointerModel>,
)
    requires
        0 <= i,
    ensures
        table_from(t, base, fields, moment, i, table) matches Some(res) ==> {
            ||| res.len() == 0 && exists|j: int|
                i <= j < fields.len() && #[trigger] scan_at(t, base, fields, moment, j) is NoTable
            ||| {
                let n = res.len() - table.len();
                &&& 0 <= n <= fields.len() - i || (n == 0 && i >= fields.len())
                &&& forall|k: int| 0 <= k < table.len() ==> #[trigger] res[k] == table[k]
                &&& forall|k: int|
                    0 <= k < n ==> {
                        let scan = #[trigger] scan_at(t, base, fields, moment, i + k);
                        ||| scan == EntryScan::Entry(Some(res[table.len() + k]))
                        ||| k == n - 1 && scan == EntryScan::End(Some(res[table.len() + k]))
                    }
                &&& (n > 0 && scan_at(t, base, fields, moment, i + n - 1) is End) || stops_at(
                    t,
                    base,
                    fields,
                    moment,
                    i + n,
                )
            }
        },
    decreases fields.len() - i,
{
    if i < fields.len() && !(fields[i] is HighEntropy) && base + 4 * i <= Address::MAX {
        let a = field_address(base, i);
        let writes = field_writes(t.mem, a, moment.trace_ind, moment.next_ind);
        let first = if fields[i] is Pointer {
            Some(fields[i]->pointer)
        } else {
            None
        };
        if !(writes.len() == 0 && first is None) {
            lemma_entry_scan(t, a, moment, writes, first);
            let scan = scan_at(t, base, fields, moment, i);
            assert(scan == entry_scan(t, a, moment, writes, first));
            if let EntryScan::Entry(entry) = scan {
                assert(entry is Some);
                let longer = table.push(entry->0);
                lemma_table_entries(t, base, fields, moment, i + 1, longer);
                if let Some(res) = table_from(t, base, fields, moment, i, table) {
                    if !(res.len() == 0 && exists|j: int|
                        i <= j < fields.len() && #[trigger] scan_at(
                            t,
                            base,
                            fields,
                            moment,
                            j,
                        ) is NoTable) {
                        let n = res.len() - table.len();
                        assert(res[table.len() as int] == entry->0);
                        assert forall|k: int| 0 <= k < table.len() implies #[trigger] res[k]
                            == table[k] by {
                            assert(res[k] == longer[k]);
                        }
                        assert forall|k: int| 0 <= k < n implies {
                            let scan = #[trigger] scan_at(t, base, fields, moment, i + k);
                            ||| scan == EntryScan::Entry(Some(res[table.len() + k]))
                            ||| k == n - 1 && scan == EntryScan::End(Some(res[table.len() + k]))
                        } by {
                            if k > 0 {
                                let m = k - 1;
                                assert(i + 1 + m == i + k);
                                assert(longer.len() + m == table.len() + k);
                                assert(scan_at(t, base, fields, moment, i + 1 + m) == scan_at(
                                    t,
                                    base,
                                    fields,
                                    moment,
                                    i + k,
                                ));
                            }
                        }
                    }
                }
            }
        }
    }
}

/// Only a pointer that is written once, and with no other write to the register after it, leads to a
/// table of pointers.
pub proof fn lemma_pointer_table(
    t: TraceModel,
    base: RamAddress,
    guess: PointerModel,
    moment: Moment,
)
    ensures
        moment.init_start != 0 || moment.next_ind != TraceId::MAX ==> pointer_table(
            t,
            base,
            guess,
            moment,
        ) == Some(Seq::<PointerModel>::empty()),
        moment.init_start == 0 && moment.next_ind == TraceId::MAX ==> pointer_table(
            t,
            base,
            guess,
            moment,
        ) == table_from(t, base, guess.to, moment, 0, Seq::empty()),
{
}

} // verus!
