//! Tables of pointers that are handed to a register once and filled in over time.

use super::init_state::init_state;
use super::merge::{
    field_views, is_mergeable, lemma_regular_merge, mergeable, merged_pointer, pre_sizes_in_reach,
    regular, regular_field, regular_fields, FieldModel, FieldTypeGuess, PointerModel, PointerType,
};
use super::trace_info::{TraceInfo, TraceModel};
use super::type_info::{
    field_address, field_guess, fields_at, gather_type_info, lemma_unused_before, moment_of,
    pointer_at, pointer_of, pre_buf_size, pre_sizes_of, read_below, unread_below, unused_before,
    InitStateCache, Moment, FIELD_SCAN_INITIAL_DEPTH, FIELD_SCAN_RECURSION_DEPTH,
    MAX_UNINIT_LEN_PROFILE,
};
use super::types::{is_pointer_aligned, pointer_aligned, NULL, POINTER_SIZE};
use crate::common::{Address, RamAddress, TraceId};
use crate::mem_view::{events_between, le_word, HistoryEntry, HistoryModel};
use crate::scan::{first_from, lemma_first_from};
use vstd::prelude::*;

verus! {

/// The word at `a` that the writes up to a trace position leave, and the null pointer where there
/// is none.
pub open spec fn written_word(m: HistoryModel, a: int, time: TraceId) -> u32 {
    match le_word(
        m.byte_at(a, time as int),
        m.byte_at(a + 1, time as int),
        m.byte_at(a + 2, time as int),
        m.byte_at(a + 3, time as int),
    ) {
        Some(word) => word,
        None => NULL,
    }
}

/// The word at `a` can be told: it lies in the address space, or one of its bytes that do is not
/// there.
pub open spec fn word_in_reach(m: HistoryModel, a: RamAddress, time: TraceId) -> bool {
    a + 3 <= Address::MAX || exists|b: int|
        a <= b <= Address::MAX && #[trigger] m.byte_at(b, time as int) is None
}

/// The writes to `a` from `trace_ind` on, before `next_ind`.
pub open spec fn field_writes(
    m: HistoryModel,
    a: RamAddress,
    trace_ind: TraceId,
    next_ind: TraceId,
) -> Seq<HistoryEntry> {
    if m.writes.contains_key(a) {
        events_between(m.writes[a], trace_ind as int, next_ind as int)
    } else {
        Seq::empty()
    }
}

/// A guess, where there is one, with one more pointer merged into it. None where they cannot be
/// merged.
pub open spec fn with_pointer(guess: Option<PointerModel>, pointer: PointerModel) -> Option<
    PointerModel,
> {
    match guess {
        Some(guess) => if mergeable(guess, pointer) {
            Some(merged_pointer(guess, pointer))
        } else {
            None
        },
        None => Some(pointer),
    }
}

/// What the writes to an entry of a table come to.
pub enum EntryScan {
    /// Every write is a pointer; the guess at what they point to.
    Entry(Option<PointerModel>),
    /// A null pointer ends the table; the guess at the pointers written before.
    End(Option<PointerModel>),
    /// Something that is no pointer: this is no table.
    NoTable,
    /// Something that is to be looked at is out of reach, or guesses cannot be merged.
    OutOfReach,
}

/// What the writes to the entry at `a` come to, where `guess` is what earlier writes came to.
pub open spec fn entry_scan(
    t: TraceModel,
    a: RamAddress,
    moment: Moment,
    writes: Seq<HistoryEntry>,
    guess: Option<PointerModel>,
) -> EntryScan
    decreases writes.len(),
{
    if writes.len() == 0 {
        EntryScan::Entry(guess)
    } else {
        let time = writes[0].trace_ind;
        let value = written_word(t.mem, a as int, time);
        if !word_in_reach(t.mem, a, time) {
            EntryScan::OutOfReach
        } else if value == NULL {
            EntryScan::End(guess)
        } else if t.map.is_ram(value) && pointer_aligned(value) {
            match pointer_at(t, value, Moment { trace_ind: time, ..moment }) {
                Some(pointer) => match with_pointer(guess, pointer) {
                    Some(merged) => entry_scan(t, a, moment, writes.drop_first(), Some(merged)),
                    None => EntryScan::OutOfReach,
                },
                None => EntryScan::OutOfReach,
            }
        } else {
            EntryScan::NoTable
        }
    }
}

/// A table with one more entry, where there is one.
pub open spec fn with_entry(
    table: Seq<PointerModel>,
    entry: Option<PointerModel>,
) -> Seq<PointerModel> {
    match entry {
        Some(pointer) => table.push(pointer),
        None => table,
    }
}

/// The table that the fields from `i` on carry on: entry by entry up to a null pointer that is
/// never written, or to something that is no pointer. None where something that is to be looked at
/// is out of reach, a field beyond the address space among them, or guesses cannot be merged.
pub open spec fn table_from(
    t: TraceModel,
    base: RamAddress,
    fields: Seq<FieldModel>,
    moment: Moment,
    i: int,
    table: Seq<PointerModel>,
) -> Option<Seq<PointerModel>>
    decreases fields.len() - i,
{
    if i >= fields.len() || fields[i] is HighEntropy {
        Some(table)
    } else if base + 4 * i > Address::MAX {
        None
    } else {
        let a = field_address(base, i);
        let first = match fields[i] {
            FieldModel::Pointer { pointer } => Some(pointer),
            _ => None,
        };
        let writes = field_writes(t.mem, a, moment.trace_ind, moment.next_ind);
        if writes.len() == 0 && first is None {
            Some(table)
        } else {
            match entry_scan(t, a, moment, writes, first) {
                EntryScan::Entry(entry) => table_from(
                    t,
                    base,
                    fields,
                    moment,
                    i + 1,
                    with_entry(table, entry),
                ),
                EntryScan::End(entry) => Some(with_entry(table, entry)),
                EntryScan::NoTable => Some(Seq::empty()),
                EntryScan::OutOfReach => None,
            }
        }
    }
}

/// The table of pointers behind a pointer that was written to a register. Only a pointer that is
/// written once leads to such a table.
pub open spec fn pointer_table(
    t: TraceModel,
    base: RamAddress,
    guess: PointerModel,
    moment: Moment,
) -> Option<Seq<PointerModel>> {
    if moment.init_start != 0 || moment.next_ind != TraceId::MAX {
        Some(Seq::empty())
    } else {
        table_from(t, base, guess.to, moment, 0, Seq::empty())
    }
}

/// The contents of each pointer.
pub open spec fn pointer_views(pointers: Seq<PointerType>) -> Seq<PointerModel> {
    pointers.map_values(|p: PointerType| p@)
}

/// The contents of pointers that may be absent.
pub open spec fn pointers_of(res: Option<Vec<PointerType>>) -> Option<Seq<PointerModel>> {
    match res {
        Some(pointers) => Some(pointer_views(pointers@)),
        None => None,
    }
}

/// The size of the buffer that may end at an address lies in the address space.
proof fn lemma_pre_buf_size(t: TraceModel, value: RamAddress, moment: Moment)
    requires
        t.wf(),
    ensures
        ({
            let state = init_state(
                t,
                value,
                moment.init_start,
                moment.init_end,
                MAX_UNINIT_LEN_PROFILE,
            );
            state is Some ==> pre_sizes_in_reach(
                pre_sizes_of(value, pre_buf_size(t.mem, value, state->0)),
            )
        }),
{
    lemma_unused_before(t, value, moment.init_start, moment.init_end, MAX_UNINIT_LEN_PROFILE);
    if let Some(state) = init_state(
        t,
        value,
        moment.init_start,
        moment.init_end,
        MAX_UNINIT_LEN_PROFILE,
    ) {
        let unused = unused_before(state);
        lemma_first_from(0, unused + 1, read_below(t.mem, value));
        if let Some(first) = first_from(0, unused + 1, read_below(t.mem, value)) {
            lemma_first_from(first, unused + 1, unread_below(t.mem, value));
        }
    }
}

/// The guesses at fields are regular.
pub proof fn lemma_fields_regular(t: TraceModel, base: RamAddress, moment: Moment, depth: nat)
    requires
        t.wf(),
    ensures
        fields_at(t, base, moment, depth) matches Some(fields) ==> regular_fields(fields),
    decreases depth,
{
    if let Some(fields) = fields_at(t, base, moment, depth) {
        assert forall|i: int| 0 <= i < fields.len() implies regular_field(#[trigger] fields[i]) by {
            let a = field_address(base, i);
            let value = moment.value_at(t.mem, a);
            lemma_fields_regular(t, value, moment, (depth - 1) as nat);
            lemma_pre_buf_size(t, value, moment);
            let guess = field_guess(
                t,
                a,
                moment,
                fields_at(t, value, moment, (depth - 1) as nat),
            );
            assert(guess == Some(fields[i]));
            reveal(field_guess);
            if let FieldModel::Pointer { pointer } = fields[i] {
                if t.map.is_ram(value) {
                    assert(pointer.known_values.contains(value));
                } else {
                    assert(pointer.includes_mmio);
                }
            }
        }
    }
}

/// The guess at what lies behind a pointer is regular, and its fields have addresses.
pub proof fn lemma_pointer_regular(t: TraceModel, base: RamAddress, moment: Moment)
    requires
        t.wf(),
    ensures
        pointer_at(t, base, moment) matches Some(pointer) ==> {
            &&& regular(pointer)
            &&& pointer.to.len() == FIELD_SCAN_INITIAL_DEPTH
            &&& base + 4 * FIELD_SCAN_INITIAL_DEPTH <= Address::MAX
        },
{
    lemma_fields_regular(t, base, moment, FIELD_SCAN_RECURSION_DEPTH as nat);
    if let Some(pointer) = pointer_at(t, base, moment) {
        assert(pointer.known_values.contains(base));
    }
}

/// The entries of a table are regular.
pub proof fn lemma_table_regular(
    t: TraceModel,
    base: RamAddress,
    fields: Seq<FieldModel>,
    moment: Moment,
    i: int,
    table: Seq<PointerModel>,
)
    requires
        t.wf(),
        0 <= i,
        regular_fields(fields),
        forall|j: int| 0 <= j < table.len() ==> regular(#[trigger] table[j]),
        table.len() == i,
        i <= fields.len(),
    ensures
        table_from(t, base, fields, moment, i, table) matches Some(res) ==> {
            &&& forall|j: int| 0 <= j < res.len() ==> regular(#[trigger] res[j])
            &&& res.len() <= fields.len()
        },
    decreases fields.len() - i,
{
    if i < fields.len() && !(fields[i] is HighEntropy) {
        let a = field_address(base, i);
        assert(regular_field(fields[i]));
        let first = match fields[i] {
            FieldModel::Pointer { pointer } => Some(pointer),
            _ => None,
        };
        let writes = field_writes(t.mem, a, moment.trace_ind, moment.next_ind);
        if writes.len() > 0 || first is Some {
            lemma_entry_regular(t, a, moment, writes, first);
            if let EntryScan::Entry(entry) = entry_scan(t, a, moment, writes, first) {
                lemma_table_regular(t, base, fields, moment, i + 1, with_entry(table, entry));
            }
        }
    }
}

/// The guess at an entry of a table is regular, and there is one if there is a write or was a
/// guess before.
proof fn lemma_entry_regular(
    t: TraceModel,
    a: RamAddress,
    moment: Moment,
    writes: Seq<HistoryEntry>,
    guess: Option<PointerModel>,
)
    requires
        t.wf(),
        guess matches Some(guess) ==> regular(guess),
    ensures
        match entry_scan(t, a, moment, writes, guess) {
            EntryScan::Entry(entry) => {
                &&& entry is Some <==> (writes.len() > 0 || guess is Some)
                &&& entry matches Some(entry) ==> regular(entry)
            },
            EntryScan::End(entry) => entry matches Some(entry) ==> regular(entry),
            _ => true,
        },
    decreases writes.len(),
{
    if writes.len() > 0 {
        let time = writes[0].trace_ind;
        let value = written_word(t.mem, a as int, time);
        let now = Moment { trace_ind: time, ..moment };
        if let Some(pointer) = pointer_at(t, value, now) {
            lemma_pointer_regular(t, value, now);
            let merged = match guess {
                Some(guess) => {
                    lemma_regular_merge(guess, pointer);
                    merged_pointer(guess, pointer)
                },
                None => pointer,
            };
            lemma_entry_regular(t, a, moment, writes.drop_first(), Some(merged));
        }
    }
}

/// What the writes to an entry of a table come to.
enum EntryGuess {
    Entry(Option<PointerType>),
    End(Option<PointerType>),
    NoTable,
    OutOfReach,
}

impl EntryGuess {
    spec fn scan(self) -> EntryScan {
        match self {
            EntryGuess::Entry(entry) => EntryScan::Entry(pointer_of(entry)),
            EntryGuess::End(entry) => EntryScan::End(pointer_of(entry)),
            EntryGuess::NoTable => EntryScan::NoTable,
            EntryGuess::OutOfReach => EntryScan::OutOfReach,
        }
    }
}

/// Whether the word at `a` can be told.
fn is_word_in_reach(tinfo: &TraceInfo, a: RamAddress, time: TraceId) -> (res: bool)
    requires
        tinfo.wf(),
    ensures
        res == word_in_reach(tinfo@.mem, a, time),
{
    if a <= Address::MAX - 3 {
        return true;
    }
    let mut b: u64 = a as u64;
    while b <= Address::MAX as u64
        invariant
            tinfo.wf(),
            a <= b,
            forall|c: int| a <= c < b ==> (#[trigger] tinfo@.mem.byte_at(c, time as int)) is Some,
        decreases 0x1_0000_0000 - b,
    {
        if tinfo.mem.get_u8_at(b as u32, time).is_none() {
            assert(tinfo@.mem.byte_at(b as int, time as int) is None);
            return true;
        }
        b += 1;
    }
    false
}

/// Merges one more pointer into a guess, where there is one.
fn add_pointer(guess: Option<PointerType>, pointer: PointerType) -> (res: Option<PointerType>)
    ensures
        pointer_of(res) == with_pointer(pointer_of(guess), pointer@),
{
    match guess {
        Some(mut guess) => if is_mergeable(&guess, &pointer) {
            guess.merge(&pointer);
            Some(guess)
        } else {
            None
        },
        None => Some(pointer),
    }
}

/// Looks at the writes to the entry of a table at `a`.
fn scan_entry(
    tinfo: &TraceInfo,
    a: RamAddress,
    next_ind: TraceId,
    writes: &Vec<HistoryEntry>,
    first: Option<PointerType>,
    init_state_cache: &mut InitStateCache<'_>,
) -> (res: EntryGuess)
    requires
        tinfo.wf(),
        old(init_state_cache).wf(),
        old(init_state_cache).tinfo == tinfo,
        old(init_state_cache).max_uninit_len == MAX_UNINIT_LEN_PROFILE,
    ensures
        final(init_state_cache).wf(),
        final(init_state_cache).same_window(old(init_state_cache)),
        res.scan() == entry_scan(
            tinfo@,
            a,
            moment_of(
                *old(init_state_cache),
                old(init_state_cache).end_ind,
                next_ind,
            ),
            writes@,
            pointer_of(first),
        ),
{
    let ghost moment = moment_of(
        *init_state_cache,
        init_state_cache.end_ind,
        next_ind,
    );
    let ghost first_model = pointer_of(first);
    let mut guess = first;
    let mut i: usize = 0;
    assert(writes@.skip(0) =~= writes@);
    while i < writes.len()
        invariant
            tinfo.wf(),
            init_state_cache.wf(),
            init_state_cache.same_window(old(init_state_cache)),
            init_state_cache.tinfo == tinfo,
            init_state_cache.max_uninit_len == MAX_UNINIT_LEN_PROFILE,
            moment == moment_of(
                *old(init_state_cache),
                old(init_state_cache).end_ind,
                next_ind,
            ),
            first_model == pointer_of(first),
            i <= writes@.len(),
            entry_scan(tinfo@, a, moment, writes@, first_model) == entry_scan(
                tinfo@,
                a,
                moment,
                writes@.skip(i as int),
                pointer_of(guess),
            ),
        decreases writes.len() - i,
    {
        let time = writes[i].trace_ind;
        assert(writes@.skip(i as int)[0] == writes@[i as int]);
        assert(writes@.skip(i as int).drop_first() =~= writes@.skip(i + 1));
        if !is_word_in_reach(tinfo, a, time) {
            return EntryGuess::OutOfReach;
        }
        let value = match tinfo.mem.get_u32_at(a, time) {
            Some(value) => value,
            None => NULL,
        };
        if value == NULL {
            return EntryGuess::End(guess);
        }
        if !(tinfo.mem_map.is_ram(value) && is_pointer_aligned(value)) {
            return EntryGuess::NoTable;
        }
        let pointer = match gather_type_info(tinfo, value, time, next_ind, init_state_cache) {
            Some(pointer) => pointer,
            None => {
                return EntryGuess::OutOfReach;
            },
        };
        match add_pointer(guess, pointer) {
            Some(merged) => {
                guess = Some(merged);
            },
            None => {
                return EntryGuess::OutOfReach;
            },
        }
        i += 1;
    }
    assert(writes@.skip(i as int).len() == 0);
    EntryGuess::Entry(guess)
}

/// Gathers the types of the entries of a table of pointers. The entries are scanned up to a null
/// pointer that is never written or something that is no pointer; for each of them, all writes to
/// it are looked at. None where something that is to be looked at is out of reach, or guesses cannot
/// be merged.
pub fn gather_pointer_table_types(
    tinfo: &TraceInfo,
    ram_address: u32,
    cur_pointer_guess: &PointerType,
    trace_ind: TraceId,
    prev_ind: TraceId,
    next_ind: TraceId,
) -> (res: Option<Vec<PointerType>>)
    requires
        tinfo.wf(),
    ensures
        pointers_of(res) == pointer_table(
            tinfo@,
            ram_address,
            cur_pointer_guess@,
            (Moment { trace_ind, next_ind, init_start: prev_ind, init_end: trace_ind }),
        ),
{
    let ghost moment = Moment { trace_ind, next_ind, init_start: prev_ind, init_end: trace_ind };
    let ghost fields = cur_pointer_guess@.to;
    let mut table_types: Vec<PointerType> = Vec::new();
    let mut init_state_cache = InitStateCache::new(
        tinfo,
        MAX_UNINIT_LEN_PROFILE,
        prev_ind,
        trace_ind,
    );
    assert(pointer_views(table_types@) =~= Seq::empty());
    if prev_ind != 0 || next_ind != TraceId::MAX {
        return Some(table_types);
    }
    let mut i: usize = 0;
    while i < cur_pointer_guess.to.len()
        invariant
            tinfo.wf(),
            fields == cur_pointer_guess@.to,
            fields == field_views(cur_pointer_guess.to@),
            moment == (Moment { trace_ind, next_ind, init_start: prev_ind, init_end: trace_ind }),
            init_state_cache.wf(),
            init_state_cache.tinfo == tinfo,
            init_state_cache.max_uninit_len == MAX_UNINIT_LEN_PROFILE,
            init_state_cache.start_ind == prev_ind,
            init_state_cache.end_ind == trace_ind,
            i <= fields.len(),
            pointer_table(tinfo@, ram_address, cur_pointer_guess@, moment) == table_from(
                tinfo@,
                ram_address,
                fields,
                moment,
                i as int,
                pointer_views(table_types@),
            ),
        decreases fields.len() - i,
    {
        assert(fields[i as int] == cur_pointer_guess.to@[i as int]@);
        let first = match &cur_pointer_guess.to[i] {
            FieldTypeGuess::Zero => None,
            FieldTypeGuess::HighEntropy { .. } => {
                return Some(table_types);
            },
            FieldTypeGuess::Pointer { pointer } => Some(pointer.clone()),
        };
        if i > (Address::MAX - ram_address) as usize / POINTER_SIZE {
            return None;
        }
        let a = ram_address + (i * POINTER_SIZE) as RamAddress;
        assert(a == field_address(ram_address, i as int));
        let writes = match tinfo.mem.get_writes_between(a, trace_ind, next_ind) {
            Some(writes) => writes,
            None => Vec::new(),
        };
        assert(writes@ == field_writes(tinfo@.mem, a, trace_ind, next_ind));
        if writes.len() == 0 && first.is_none() {
            return Some(table_types);
        }
        let ghost before = pointer_views(table_types@);
        match scan_entry(tinfo, a, next_ind, &writes, first, &mut init_state_cache) {
            EntryGuess::Entry(entry) => {
                if let Some(entry) = entry {
                    table_types.push(entry);
                    assert(pointer_views(table_types@) =~= before.push(entry@));
                }
            },
            EntryGuess::End(entry) => {
                if let Some(entry) = entry {
                    table_types.push(entry);
                    assert(pointer_views(table_types@) =~= before.push(entry@));
                }
                return Some(table_types);
            },
            EntryGuess::NoTable => {
                table_types.clear();
                assert(pointer_views(table_types@) =~= Seq::empty());
                return Some(table_types);
            },
            EntryGuess::OutOfReach => {
                return None;
            },
        }
        i += 1;
    }
    Some(table_types)
}

} // verus!
