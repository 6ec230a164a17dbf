//! The history of every memory location, and the memory as it stood at a given time.

use crate::common::{Address, TraceId};
use crate::hoedur::bintrace::{Access, AccessType, Trace, TraceEvent};
use crate::scan::{first_from, last_before, lemma_last_before};
use crate::tables::{map_get, push_at, seq_at, seq_views};
use fxhash::FxHashMap;
use vstd::prelude::*;

verus! {

broadcast use vstd::std_specs::hash::group_hash_axioms;

/// One access to one byte.
#[derive(Debug, Clone, Copy, PartialEq, Eq, Structural)]
pub struct HistoryEntry {
    pub trace_ind: TraceId,
    pub value: u8,
}

/// Which of several entries is asked for.
#[derive(Debug, Clone, Copy, PartialEq, Eq, Structural)]
pub enum TimeOrder {
    First,
    Last,
}

/// One end of a range of trace positions.
#[derive(Debug, Clone, Copy, PartialEq, Eq, Structural)]
pub enum TimeBound {
    Included(TraceId),
    Excluded(TraceId),
    Unbounded,
}

/// A range of trace positions.
#[derive(Debug, Clone, Copy, PartialEq, Eq, Structural)]
pub struct TimeRange {
    pub start: TimeBound,
    pub end: TimeBound,
}

impl TimeRange {
    /// `time` lies in the range.
    pub open spec fn has(self, time: int) -> bool {
        &&& match self.start {
            TimeBound::Included(start) => start <= time,
            TimeBound::Excluded(start) => start < time,
            TimeBound::Unbounded => true,
        }
        &&& match self.end {
            TimeBound::Included(end) => time <= end,
            TimeBound::Excluded(end) => time < end,
            TimeBound::Unbounded => true,
        }
    }

    /// The first position that the lower bound admits, as far as positions go.
    pub open spec fn first_time(self) -> int {
        match self.start {
            TimeBound::Included(start) => start as int,
            TimeBound::Excluded(start) => if start == TraceId::MAX {
                start as int
            } else {
                start + 1
            },
            TimeBound::Unbounded => 0,
        }
    }

    /// The last position that the upper bound admits; zero where it admits none.
    pub open spec fn last_time(self) -> int {
        match self.end {
            TimeBound::Included(end) => end as int,
            TimeBound::Excluded(end) => if end == 0 {
                0
            } else {
                end - 1
            },
            TimeBound::Unbounded => TraceId::MAX as int,
        }
    }

    /// The positions from `start` on, before `end`.
    pub open spec fn spec_between(start: TraceId, end: TraceId) -> TimeRange {
        TimeRange { start: TimeBound::Included(start), end: TimeBound::Excluded(end) }
    }

    /// The positions from `start` on, before `end`.
    #[verifier::when_used_as_spec(spec_between)]
    pub fn between(start: TraceId, end: TraceId) -> (res: TimeRange)
        ensures
            res == TimeRange::spec_between(start, end),
    {
        TimeRange { start: TimeBound::Included(start), end: TimeBound::Excluded(end) }
    }

    /// The positions from `start` on, up to and with `end`.
    pub open spec fn spec_through(start: TraceId, end: TraceId) -> TimeRange {
        TimeRange { start: TimeBound::Included(start), end: TimeBound::Included(end) }
    }

    /// The positions from `start` on, up to and with `end`.
    #[verifier::when_used_as_spec(spec_through)]
    pub fn through(start: TraceId, end: TraceId) -> (res: TimeRange)
        ensures
            res == TimeRange::spec_through(start, end),
    {
        TimeRange { start: TimeBound::Included(start), end: TimeBound::Included(end) }
    }

    /// The first position that the lower bound admits.
    pub fn time_start(&self) -> (res: TraceId)
        ensures
            res == self.first_time(),
    {
        match self.start {
            TimeBound::Included(start) => start,
            TimeBound::Excluded(start) => start.saturating_add(1),
            TimeBound::Unbounded => TraceId::MIN,
        }
    }

    /// The last position that the upper bound admits.
    pub fn time_end(&self) -> (res: TraceId)
        ensures
            res == self.last_time(),
    {
        match self.end {
            TimeBound::Included(end) => end,
            TimeBound::Excluded(end) => end.saturating_sub(1),
            TimeBound::Unbounded => TraceId::MAX,
        }
    }

    /// Whether `time` lies in the range.
    pub fn contains(&self, time: TraceId) -> (res: bool)
        ensures
            res == self.has(time as int),
    {
        let after_start = match self.start {
            TimeBound::Included(start) => start <= time,
            TimeBound::Excluded(start) => start < time,
            TimeBound::Unbounded => true,
        };
        let before_end = match self.end {
            TimeBound::Included(end) => time <= end,
            TimeBound::Excluded(end) => time < end,
            TimeBound::Unbounded => true,
        };
        after_start && before_end
    }
}

/// The contents of a memory history: for each address that was accessed, its entries in the order
/// in which they were added.
pub struct HistoryModel {
    pub writes: Map<Address, Seq<HistoryEntry>>,
    pub reads: Map<Address, Seq<HistoryEntry>>,
}

/// The history of every memory location.
#[derive(Debug)]
pub struct MemoryHistory {
    pub writes: FxHashMap<Address, Vec<HistoryEntry>>,
    pub reads: FxHashMap<Address, Vec<HistoryEntry>>,
}

impl View for MemoryHistory {
    type V = HistoryModel;

    open spec fn view(&self) -> HistoryModel {
        HistoryModel { writes: seq_views(self.writes@), reads: seq_views(self.reads@) }
    }
}

/// The memory as the accesses of a range of trace positions left it.
#[derive(Debug)]
pub struct MemoryView<'a> {
    pub time: TimeRange,
    pub memory: &'a MemoryHistory,
}

/// The entries stand in the order of their trace positions.
pub open spec fn in_time_order(h: Seq<HistoryEntry>) -> bool {
    forall|i: int, j: int| 0 <= i < j < h.len() ==> h[i].trace_ind <= h[j].trace_ind
}

/// The entry behind a reference that may be absent.
pub open spec fn entry_of(res: Option<&HistoryEntry>) -> Option<HistoryEntry> {
    match res {
        Some(entry) => Some(*entry),
        None => None,
    }
}

/// The value of an entry that may be absent.
pub open spec fn value_of(entry: Option<HistoryEntry>) -> Option<u8> {
    match entry {
        Some(entry) => Some(entry.value),
        None => None,
    }
}

/// The entry at an index that may be absent.
pub open spec fn entry_at(h: Seq<HistoryEntry>, i: Option<int>) -> Option<HistoryEntry> {
    match i {
        Some(i) => Some(h[i]),
        None => None,
    }
}

/// The indices of entries at or before `time`.
pub open spec fn until(h: Seq<HistoryEntry>, time: int) -> spec_fn(int) -> bool {
    |i: int| h[i].trace_ind <= time
}

/// The indices of entries after `time`.
pub open spec fn after(h: Seq<HistoryEntry>, time: int) -> spec_fn(int) -> bool {
    |i: int| h[i].trace_ind > time
}

/// The indices of entries at or after `time`.
pub open spec fn since(h: Seq<HistoryEntry>, time: int) -> spec_fn(int) -> bool {
    |i: int| h[i].trace_ind >= time
}

/// The indices of entries in the range `time`.
pub open spec fn within(h: Seq<HistoryEntry>, time: TimeRange) -> spec_fn(int) -> bool {
    |i: int| time.has(h[i].trace_ind as int)
}

/// The last entry at or before `time`.
pub open spec fn latest_until(h: Seq<HistoryEntry>, time: int) -> Option<HistoryEntry> {
    entry_at(h, last_before(h.len() as int, until(h, time)))
}

/// The first entry after `time`.
pub open spec fn next_after(h: Seq<HistoryEntry>, time: int) -> Option<HistoryEntry> {
    entry_at(h, first_from(0, h.len() as int, after(h, time)))
}

/// The index of the first entry at or after `time`, from index `from` on; the length where there
/// is none.
pub open spec fn index_since(h: Seq<HistoryEntry>, from: int, time: int) -> int {
    match first_from(from, h.len() as int, since(h, time)) {
        Some(i) => i,
        None => h.len() as int,
    }
}

/// The first entry after `start`, among the entries that stand before the first one at or after
/// `end`.
pub open spec fn next_between(h: Seq<HistoryEntry>, start: int, end: int) -> Option<HistoryEntry> {
    entry_at(h, first_from(0, index_since(h, 0, end), after(h, start)))
}

/// The entries from the first one at or after `start` on, up to the next one at or after `end`.
pub open spec fn events_between(h: Seq<HistoryEntry>, start: int, end: int) -> Seq<HistoryEntry> {
    let from = index_since(h, 0, start);
    h.subrange(from, index_since(h, from, end))
}

/// The first or last entry in the range `time`.
pub open spec fn entry_within(
    h: Seq<HistoryEntry>,
    time: TimeRange,
    order: TimeOrder,
) -> Option<HistoryEntry> {
    match order {
        TimeOrder::First => entry_at(h, first_from(0, h.len() as int, within(h, time))),
        TimeOrder::Last => entry_at(h, last_before(h.len() as int, within(h, time))),
    }
}

/// The entry that decides a byte in the view of `time`: the latest one up to the end of the range,
/// where it stands at that end or in the range.
pub open spec fn deciding_entry(h: Seq<HistoryEntry>, time: TimeRange) -> Option<HistoryEntry> {
    match latest_until(h, time.last_time()) {
        Some(entry) => if entry.trace_ind == time.last_time() || time.has(entry.trace_ind as int) {
            Some(entry)
        } else {
            None
        },
        None => None,
    }
}

impl HistoryModel {
    /// The accesses of the given direction.
    pub open spec fn of_type(self, access_type: AccessType) -> Map<Address, Seq<HistoryEntry>> {
        match access_type {
            AccessType::Read => self.reads,
            AccessType::Write => self.writes,
        }
    }

    /// Every history stands in time order.
    pub open spec fn ordered(self) -> bool {
        &&& forall|a: Address|
            self.writes.contains_key(a) ==> in_time_order(#[trigger] self.writes[a])
        &&& forall|a: Address|
            self.reads.contains_key(a) ==> in_time_order(#[trigger] self.reads[a])
    }

    /// The byte at `address` in the view of `time`. An address past the end of the address space
    /// holds none.
    pub open spec fn byte_in(self, time: TimeRange, address: int) -> Option<u8> {
        if 0 <= address <= Address::MAX {
            value_of(deciding_entry(seq_at(self.writes, address as Address), time))
        } else {
            None
        }
    }

    /// The bytes at `address` and after it in the view of `time`, where all `n` of them are there.
    pub open spec fn bytes_in(self, time: TimeRange, address: int, n: nat) -> Option<Seq<u8>> {
        if forall|i: int| 0 <= i < n ==> (#[trigger] self.byte_in(time, address + i)) is Some {
            Some(Seq::new(n, |i: int| self.byte_in(time, address + i)->0))
        } else {
            None
        }
    }

    /// The `n` bytes at `address` in the view of `time`, as a little-endian number.
    pub open spec fn number_in(self, time: TimeRange, address: int, n: nat) -> Option<nat> {
        match self.bytes_in(time, address, n) {
            Some(bytes) => Some(le_value(bytes)),
            None => None,
        }
    }

    /// The byte at `address` after the accesses up to `time`.
    pub open spec fn byte_at(self, address: int, time: int) -> Option<u8> {
        if 0 <= address <= Address::MAX {
            value_of(latest_until(seq_at(self.writes, address as Address), time))
        } else {
            None
        }
    }

    /// The first byte written to `address` after `time`.
    pub open spec fn byte_after(self, address: int, time: int) -> Option<u8> {
        if 0 <= address <= Address::MAX {
            value_of(next_after(seq_at(self.writes, address as Address), time))
        } else {
            None
        }
    }

    /// The byte that was written to `address` last.
    pub open spec fn latest_byte(self, address: int) -> Option<u8> {
        if 0 <= address <= Address::MAX && seq_at(self.writes, address as Address).len() > 0 {
            Some(seq_at(self.writes, address as Address).last().value)
        } else {
            None
        }
    }

    /// The last entry of the writes to `address` between `start` and `end`.
    pub open spec fn latest_write(self, address: Address, start: int, end: int) -> Option<
        HistoryEntry,
    > {
        let writes = events_between(seq_at(self.writes, address), start, end);
        if writes.len() > 0 {
            Some(writes.last())
        } else {
            None
        }
    }

    /// The latest writes to the addresses from `address` on, before `end_address`, up to the first
    /// address without one.
    pub open spec fn latest_writes(
        self,
        address: int,
        end_address: int,
        start: int,
        end: int,
    ) -> Seq<HistoryEntry>
        decreases end_address - address,
    {
        if address >= end_address {
            Seq::empty()
        } else {
            match self.latest_write(address as Address, start, end) {
                Some(entry) => seq![entry] + self.latest_writes(
                    address + 1,
                    end_address,
                    start,
                    end,
                ),
                None => Seq::empty(),
            }
        }
    }
}

/// The number that `bytes` make up, the first one being the least.
pub open spec fn le_value(bytes: Seq<u8>) -> nat
    decreases bytes.len(),
{
    if bytes.len() == 0 {
        0
    } else {
        bytes[0] as nat + 256 * le_value(bytes.skip(1))
    }
}

/// The number that four bytes make up, where all of them are there.
pub open spec fn le_word(
    b0: Option<u8>,
    b1: Option<u8>,
    b2: Option<u8>,
    b3: Option<u8>,
) -> Option<u32> {
    match (b0, b1, b2, b3) {
        (Some(b0), Some(b1), Some(b2), Some(b3)) => Some(
            (b0 + 0x100 * b1 + 0x1_0000 * b2 + 0x100_0000 * b3) as u32,
        ),
        _ => None,
    }
}

/// Byte `i` of a word, the byte at 0 being the least.
pub open spec fn byte_of(value: u32, i: int) -> u8 {
    if i == 0 {
        (value % 0x100) as u8
    } else if i == 1 {
        (value / 0x100 % 0x100) as u8
    } else if i == 2 {
        (value / 0x1_0000 % 0x100) as u8
    } else {
        (value / 0x100_0000) as u8
    }
}

/// The number of bytes of `access` that enter a history: its size, up to a word.
pub open spec fn recorded_len(access: Access) -> int {
    if access.size < 4 {
        access.size as int
    } else {
        4
    }
}

/// The bytes of `access` that enter a history all have an address.
pub open spec fn recordable(access: Access) -> bool {
    access.address + recorded_len(access) <= 0x1_0000_0000
}

/// One of the first `n` bytes of `access` lies at `address`.
pub open spec fn touches(access: Access, n: int, address: Address) -> bool {
    access.address <= address < access.address + n
}

/// A history after the first `n` bytes of `access` were added to it.
pub open spec fn with_bytes(
    h: Map<Address, Seq<HistoryEntry>>,
    trace_ind: TraceId,
    access: Access,
    n: int,
) -> Map<Address, Seq<HistoryEntry>> {
    Map::new(
        |a: Address| h.contains_key(a) || touches(access, n, a),
        |a: Address|
            if touches(access, n, a) {
                seq_at(h, a).push(
                    HistoryEntry { trace_ind, value: byte_of(access.value, a - access.address) },
                )
            } else {
                h[a]
            },
    )
}

/// A history after `access` was added to it.
pub open spec fn with_access(
    h: Map<Address, Seq<HistoryEntry>>,
    trace_ind: TraceId,
    access: Access,
) -> Map<Address, Seq<HistoryEntry>> {
    with_bytes(h, trace_ind, access, recorded_len(access))
}

impl HistoryModel {
    /// The history after `access` was added.
    pub open spec fn with(self, trace_ind: TraceId, access: Access) -> HistoryModel {
        match access.access_type {
            AccessType::Write => HistoryModel {
                writes: with_access(self.writes, trace_ind, access),
                reads: self.reads,
            },
            AccessType::Read => HistoryModel {
                writes: self.writes,
                reads: with_access(self.reads, trace_ind, access),
            },
        }
    }

    /// The history after the accesses of `events` were added, each at its position.
    pub open spec fn with_events(self, events: Seq<TraceEvent>) -> HistoryModel
        decreases events.len(),
    {
        if events.len() == 0 {
            self
        } else {
            self.with_events(events.drop_last()).with(
                (events.len() - 1) as TraceId,
                events.last().access(),
            )
        }
    }

    /// The history without any access.
    pub open spec fn empty() -> HistoryModel {
        HistoryModel { writes: Map::empty(), reads: Map::empty() }
    }
}

/// Byte `i` of a word, the byte at 0 being the least.
fn nth_byte(value: u32, i: u32) -> (res: u8)
    requires
        i < 4,
    ensures
        res == byte_of(value, i as int),
{
    if i == 0 {
        (value % 0x100) as u8
    } else if i == 1 {
        (value / 0x100 % 0x100) as u8
    } else if i == 2 {
        (value / 0x1_0000 % 0x100) as u8
    } else {
        (value / 0x100_0000) as u8
    }
}

/// The number that four bytes make up, the first one being the least.
fn word_of(b0: u8, b1: u8, b2: u8, b3: u8) -> (res: u32)
    ensures
        Some(res) == le_word(Some(b0), Some(b1), Some(b2), Some(b3)),
{
    b0 as u32 + 0x100 * (b1 as u32) + 0x1_0000 * (b2 as u32) + 0x100_0000 * (b3 as u32)
}

/// Adds the bytes of `access` to a history.
fn record_bytes(hm: &mut FxHashMap<Address, Vec<HistoryEntry>>, event_ind: TraceId, access: &Access)
    requires
        recordable(*access),
    ensures
        seq_views(final(hm)@) == with_access(seq_views(old(hm)@), event_ind, *access),
{
    let len: u32 = if access.size < 4 {
        access.size as u32
    } else {
        4
    };
    let mut i: u32 = 0;
    assert(seq_views(hm@) =~= with_bytes(seq_views(old(hm)@), event_ind, *access, 0));
    while i < len
        invariant
            recordable(*access),
            len == recorded_len(*access),
            i <= len <= 4,
            seq_views(hm@) == with_bytes(seq_views(old(hm)@), event_ind, *access, i as int),
        decreases len - i,
    {
        let address = access.address + i;
        let value = nth_byte(access.value, i);
        push_at(hm, address, HistoryEntry { trace_ind: event_ind, value });
        assert(seq_views(hm@) =~= with_bytes(seq_views(old(hm)@), event_ind, *access, i + 1));
        i += 1;
    }
}

/// The last entry at or before `timestamp`.
fn get_latest_event_until<'a>(history: &'a [HistoryEntry], timestamp: TraceId) -> (res: Option<
    &'a HistoryEntry,
>)
    ensures
        entry_of(res) == latest_until(history@, timestamp as int),
{
    let mut i: usize = history.len();
    while i > 0
        invariant
            i <= history@.len(),
            last_before(history@.len() as int, until(history@, timestamp as int)) == last_before(
                i as int,
                until(history@, timestamp as int),
            ),
        decreases i,
    {
        if history[i - 1].trace_ind <= timestamp {
            return Some(&history[i - 1]);
        }
        i -= 1;
    }
    None
}

/// The first entry after `timestamp`.
fn get_next_event_after<'a>(history: &'a [HistoryEntry], timestamp: TraceId) -> (res: Option<
    &'a HistoryEntry,
>)
    ensures
        entry_of(res) == next_after(history@, timestamp as int),
{
    let mut i: usize = 0;
    while i < history.len()
        invariant
            i <= history@.len(),
            first_from(0, history@.len() as int, after(history@, timestamp as int)) == first_from(
                i as int,
                history@.len() as int,
                after(history@, timestamp as int),
            ),
        decreases history.len() - i,
    {
        if history[i].trace_ind > timestamp {
            return Some(&history[i]);
        }
        i += 1;
    }
    None
}

/// The index of the first entry at or after `time`, from `from` on.
fn find_since(history: &[HistoryEntry], from: usize, time: TraceId) -> (res: usize)
    requires
        from <= history@.len(),
    ensures
        res == index_since(history@, from as int, time as int),
        from <= res <= history@.len(),
{
    let mut i: usize = from;
    while i < history.len()
        invariant
            from <= i <= history@.len(),
            first_from(from as int, history@.len() as int, since(history@, time as int))
                == first_from(i as int, history@.len() as int, since(history@, time as int)),
        decreases history.len() - i,
    {
        if history[i].trace_ind >= time {
            return i;
        }
        i += 1;
    }
    i
}

/// The first entry after `start_ind`, among those that stand before the first one at or after
/// `end_ind`.
fn get_next_event_between<'a>(
    history: &'a [HistoryEntry],
    start_ind: TraceId,
    end_ind: TraceId,
) -> (res: Option<&'a HistoryEntry>)
    ensures
        entry_of(res) == next_between(history@, start_ind as int, end_ind as int),
{
    let end = find_since(history, 0, end_ind);
    let mut i: usize = 0;
    while i < end
        invariant
            i <= end <= history@.len(),
            end == index_since(history@, 0, end_ind as int),
            first_from(0, end as int, after(history@, start_ind as int)) == first_from(
                i as int,
                end as int,
                after(history@, start_ind as int),
            ),
        decreases end - i,
    {
        if history[i].trace_ind > start_ind {
            return Some(&history[i]);
        }
        i += 1;
    }
    None
}

/// The entries from the first one at or after `start_ind` on, up to the next one at or after
/// `end_ind`.
fn get_events_between(history: &[HistoryEntry], start_ind: TraceId, end_ind: TraceId) -> (res: Vec<
    HistoryEntry,
>)
    ensures
        res@ == events_between(history@, start_ind as int, end_ind as int),
{
    let from = find_since(history, 0, start_ind);
    let to = find_since(history, from, end_ind);
    let mut res: Vec<HistoryEntry> = Vec::new();
    let mut i: usize = from;
    while i < to
        invariant
            from <= i <= to <= history@.len(),
            res@ == history@.subrange(from as int, i as int),
        decreases to - i,
    {
        res.push(history[i]);
        i += 1;
        assert(res@ =~= history@.subrange(from as int, i as int));
    }
    res
}

/// The first or last entry in the range `time`.
fn find_within<'a>(history: &'a [HistoryEntry], time: &TimeRange, time_order: TimeOrder) -> (res:
    Option<&'a HistoryEntry>)
    ensures
        entry_of(res) == entry_within(history@, *time, time_order),
{
    match time_order {
        TimeOrder::First => {
            let mut i: usize = 0;
            while i < history.len()
                invariant
                    i <= history@.len(),
                    time_order == TimeOrder::First,
                    first_from(0, history@.len() as int, within(history@, *time)) == first_from(
                        i as int,
                        history@.len() as int,
                        within(history@, *time),
                    ),
                decreases history.len() - i,
            {
                if time.contains(history[i].trace_ind) {
                    return Some(&history[i]);
                }
                i += 1;
            }
            None
        },
        TimeOrder::Last => {
            let mut i: usize = history.len();
            while i > 0
                invariant
                    i <= history@.len(),
                    time_order == TimeOrder::Last,
                    last_before(history@.len() as int, within(history@, *time)) == last_before(
                        i as int,
                        within(history@, *time),
                    ),
                decreases i,
            {
                if time.contains(history[i - 1].trace_ind) {
                    return Some(&history[i - 1]);
                }
                i -= 1;
            }
            None
        },
    }
}

/// The number of entries at or before `time`, found by halving.
fn count_until(history: &[HistoryEntry], time: TraceId) -> (res: usize)
    requires
        in_time_order(history@),
    ensures
        res <= history@.len(),
        forall|i: int| 0 <= i < res ==> history@[i].trace_ind <= time,
        forall|i: int| res <= i < history@.len() ==> history@[i].trace_ind > time,
{
    let mut low: usize = 0;
    let mut high: usize = history.len();
    while low < high
        invariant
            in_time_order(history@),
            low <= high <= history@.len(),
            forall|i: int| 0 <= i < low ==> history@[i].trace_ind <= time,
            forall|i: int| high <= i < history@.len() ==> history@[i].trace_ind > time,
        decreases high - low,
    {
        let mid = low + (high - low) / 2;
        if history[mid].trace_ind <= time {
            low = mid + 1;
        } else {
            high = mid;
        }
    }
    low
}

/// The entry that decides a byte in the view of `time`.
fn find_deciding<'a>(history: &'a [HistoryEntry], time: &TimeRange) -> (res: Option<
    &'a HistoryEntry,
>)
    requires
        in_time_order(history@),
    ensures
        entry_of(res) == deciding_entry(history@, *time),
{
    let end = time.time_end();
    let count = count_until(history, end);
    proof {
        lemma_last_before(history@.len() as int, until(history@, end as int));
        if count > 0 {
            assert(until(history@, end as int)(count - 1));
        }
    }
    if count == 0 {
        return None;
    }
    let entry = &history[count - 1];
    if entry.trace_ind == end || time.contains(entry.trace_ind) {
        Some(entry)
    } else {
        None
    }
}

impl Default for MemoryHistory {
    fn default() -> (res: Self)
        ensures
            res@ == HistoryModel::empty(),
    {
        Self::new()
    }
}

impl MemoryHistory {
    /// A history without any access.
    pub fn new() -> (res: Self)
        ensures
            res@ == HistoryModel::empty(),
    {
        let res = MemoryHistory { writes: FxHashMap::default(), reads: FxHashMap::default() };
        assert(res@.writes =~= Map::empty());
        assert(res@.reads =~= Map::empty());
        res
    }

    /// Adds the bytes of an access to the history of its direction.
    pub fn add_access(&mut self, event_ind: TraceId, access: &Access)
        requires
            recordable(*access),
        ensures
            final(self)@ == old(self)@.with(event_ind, *access),
    {
        match access.access_type {
            AccessType::Write => record_bytes(&mut self.writes, event_ind, access),
            AccessType::Read => record_bytes(&mut self.reads, event_ind, access),
        }
    }

    /// Adds an event to the history.
    pub fn add_trace_entry(&mut self, event_ind: TraceId, event: &TraceEvent)
        requires
            recordable(event.access()),
        ensures
            final(self)@ == old(self)@.with(event_ind, event.access()),
    {
        match event {
            TraceEvent::Access(access) => {
                self.add_access(event_ind, access);
            },
        }
    }

    /// Adds every event of a trace to the history.
    pub fn load_trace(&mut self, trace: &Trace)
        requires
            forall|i: int| 0 <= i < trace.events@.len() ==> recordable(
                (#[trigger] trace.events@[i]).access(),
            ),
        ensures
            final(self)@ == old(self)@.with_events(trace.events@),
    {
        let mut i: usize = 0;
        assert(trace.events@.take(0) =~= Seq::empty());
        while i < trace.events.len()
            invariant
                forall|i: int| 0 <= i < trace.events@.len() ==> recordable(
                    (#[trigger] trace.events@[i]).access(),
                ),
                i <= trace.events@.len(),
                self@ == old(self)@.with_events(trace.events@.take(i as int)),
            decreases trace.events.len() - i,
        {
            self.add_trace_entry(i as TraceId, &trace.events[i]);
            assert(trace.events@.take(i + 1).drop_last() =~= trace.events@.take(i as int));
            i += 1;
        }
        assert(trace.events@.take(i as int) =~= trace.events@);
    }

    /// The memory as the accesses in the range `time` left it.
    pub fn mem_view_at(&self, time: TimeRange) -> (res: MemoryView<'_>)
        ensures
            res.time == time,
            res.memory == self,
    {
        MemoryView { time, memory: self }
    }

    /// The first or last access of the given direction in the range `time`.
    pub fn get_history_entry(
        &self,
        address: Address,
        time: &TimeRange,
        access_type: AccessType,
        time_order: TimeOrder,
    ) -> (res: Option<&HistoryEntry>)
        ensures
            entry_of(res) == entry_within(
                seq_at(self@.of_type(access_type), address),
                *time,
                time_order,
            ),
    {
        let histories = match access_type {
            AccessType::Read => &self.reads,
            AccessType::Write => &self.writes,
        };
        match map_get(histories, &address) {
            Some(history) => find_within(history.as_slice(), time, time_order),
            None => None,
        }
    }

    fn next_access(&self, address: u32, time: &TimeRange, access_type: AccessType) -> (res: Option<
        &HistoryEntry,
    >)
        ensures
            entry_of(res) == entry_within(
                seq_at(self@.of_type(access_type), address),
                *time,
                TimeOrder::First,
            ),
    {
        self.get_history_entry(address, time, access_type, TimeOrder::First)
    }

    fn last_access(&self, address: u32, time: &TimeRange, access_type: AccessType) -> (res: Option<
        &HistoryEntry,
    >)
        ensures
            entry_of(res) == entry_within(
                seq_at(self@.of_type(access_type), address),
                *time,
                TimeOrder::Last,
            ),
    {
        self.get_history_entry(address, time, access_type, TimeOrder::Last)
    }

    /// The first read in the range `time`.
    pub fn next_read(&self, address: u32, time: &TimeRange) -> (res: Option<&HistoryEntry>)
        ensures
            entry_of(res) == entry_within(seq_at(self@.reads, address), *time, TimeOrder::First),
    {
        self.next_access(address, time, AccessType::Read)
    }

    /// The first write in the range `time`.
    pub fn next_write(&self, address: u32, time: &TimeRange) -> (res: Option<&HistoryEntry>)
        ensures
            entry_of(res) == entry_within(seq_at(self@.writes, address), *time, TimeOrder::First),
    {
        self.next_access(address, time, AccessType::Write)
    }

    /// The last read in the range `time`.
    pub fn last_read(&self, address: u32, time: &TimeRange) -> (res: Option<&HistoryEntry>)
        ensures
            entry_of(res) == entry_within(seq_at(self@.reads, address), *time, TimeOrder::Last),
    {
        self.last_access(address, time, AccessType::Read)
    }

    /// The last write in the range `time`.
    pub fn last_write(&self, address: u32, time: &TimeRange) -> (res: Option<&HistoryEntry>)
        ensures
            entry_of(res) == entry_within(seq_at(self@.writes, address), *time, TimeOrder::Last),
    {
        self.last_access(address, time, AccessType::Write)
    }

    /// The last write at or before `timestamp`.
    pub fn latest_write_at(&self, address: u32, timestamp: TraceId) -> (res: Option<&HistoryEntry>)
        ensures
            entry_of(res) == latest_until(seq_at(self@.writes, address), timestamp as int),
    {
        match map_get(&self.writes, &address) {
            Some(history) => get_latest_event_until(history.as_slice(), timestamp),
            None => None,
        }
    }

    /// The last read at or before `timestamp`.
    pub fn latest_read_at(&self, address: u32, timestamp: TraceId) -> (res: Option<&HistoryEntry>)
        ensures
            entry_of(res) == latest_until(seq_at(self@.reads, address), timestamp as int),
    {
        match map_get(&self.reads, &address) {
            Some(history) => get_latest_event_until(history.as_slice(), timestamp),
            None => None,
        }
    }

    /// The value of a memory location at `timestamp`.
    pub fn get_u8_at(&self, address: u32, timestamp: TraceId) -> (res: Option<u8>)
        ensures
            res == self@.byte_at(address as int, timestamp as int),
    {
        match self.latest_write_at(address, timestamp) {
            Some(entry) => Some(entry.value),
            None => None,
        }
    }

    /// The first value that is written to a memory location after `start_ind` and before
    /// `end_ind`.
    pub fn get_u8_between(&self, address: u32, start_ind: TraceId, end_ind: TraceId) -> (res:
        Option<u8>)
        ensures
            res == value_of(
                next_between(seq_at(self@.writes, address), start_ind as int, end_ind as int),
            ),
    {
        match map_get(&self.writes, &address) {
            Some(history) => match get_next_event_between(history.as_slice(), start_ind, end_ind) {
                Some(entry) => Some(entry.value),
                None => None,
            },
            None => None,
        }
    }

    /// The first value that is written to a memory location after `timestamp`.
    pub fn get_u8_after(&self, address: u32, timestamp: TraceId) -> (res: Option<u8>)
        ensures
            res == self@.byte_after(address as int, timestamp as int),
    {
        match self.get_write_after(address, timestamp) {
            Some(entry) => Some(entry.value),
            None => None,
        }
    }

    /// The word at a memory location at `timestamp`.
    pub fn get_u32_at(&self, address: u32, timestamp: TraceId) -> (res: Option<u32>)
        requires
            address + 3 <= Address::MAX || exists|a: int|
                address <= a <= Address::MAX && #[trigger] self@.byte_at(
                    a,
                    timestamp as int,
                ) is None,
        ensures
            res == le_word(
                self@.byte_at(address as int, timestamp as int),
                self@.byte_at(address + 1, timestamp as int),
                self@.byte_at(address + 2, timestamp as int),
                self@.byte_at(address + 3, timestamp as int),
            ),
    {
        let b0 = self.get_u8_at(address, timestamp)?;
        let b1 = self.get_u8_at(address + 1, timestamp)?;
        let b2 = self.get_u8_at(address + 2, timestamp)?;
        let b3 = self.get_u8_at(address + 3, timestamp)?;
        Some(word_of(b0, b1, b2, b3))
    }

    /// The word that the first writes to each of four bytes after `timestamp` make up.
    pub fn get_32_after(&self, address: u32, timestamp: TraceId) -> (res: Option<u32>)
        requires
            address + 3 <= Address::MAX || exists|a: int|
                address <= a <= Address::MAX && #[trigger] self@.byte_after(
                    a,
                    timestamp as int,
                ) is None,
        ensures
            res == le_word(
                self@.byte_after(address as int, timestamp as int),
                self@.byte_after(address + 1, timestamp as int),
                self@.byte_after(address + 2, timestamp as int),
                self@.byte_after(address + 3, timestamp as int),
            ),
    {
        let b0 = self.get_u8_after(address, timestamp)?;
        let b1 = self.get_u8_after(address + 1, timestamp)?;
        let b2 = self.get_u8_after(address + 2, timestamp)?;
        let b3 = self.get_u8_after(address + 3, timestamp)?;
        Some(word_of(b0, b1, b2, b3))
    }

    /// The latest value of a memory location.
    pub fn get_latest_u8(&self, address: u32) -> (res: Option<u8>)
        ensures
            res == self@.latest_byte(address as int),
    {
        match map_get(&self.writes, &address) {
            Some(history) => if history.len() > 0 {
                Some(history[history.len() - 1].value)
            } else {
                None
            },
            None => None,
        }
    }

    /// The latest word at a memory location.
    pub fn get_latest_u32(&self, address: u32) -> (res: Option<u32>)
        requires
            address + 3 <= Address::MAX || exists|a: int|
                address <= a <= Address::MAX && #[trigger] self@.latest_byte(a) is None,
        ensures
            res == le_word(
                self@.latest_byte(address as int),
                self@.latest_byte(address + 1),
                self@.latest_byte(address + 2),
                self@.latest_byte(address + 3),
            ),
    {
        let b0 = self.get_latest_u8(address)?;
        let b1 = self.get_latest_u8(address + 1)?;
        let b2 = self.get_latest_u8(address + 2)?;
        let b3 = self.get_latest_u8(address + 3)?;
        Some(word_of(b0, b1, b2, b3))
    }

    /// The writes to a memory location from `start_ind` on, before `end_ind`; none where nothing
    /// was ever written to it.
    pub fn get_writes_between(&self, address: u32, start_ind: TraceId, end_ind: TraceId) -> (res:
        Option<Vec<HistoryEntry>>)
        ensures
            res is Some <==> self@.writes.contains_key(address),
            res matches Some(writes) ==> writes@ == events_between(
                self@.writes[address],
                start_ind as int,
                end_ind as int,
            ),
    {
        match map_get(&self.writes, &address) {
            Some(history) => Some(get_events_between(history.as_slice(), start_ind, end_ind)),
            None => None,
        }
    }

    /// The latest write to each address from `address` on, before `address_end`, up to the first
    /// address without one, among the writes from `start_ind` on, before `end_ind`.
    pub fn get_latest_writes_between(
        &self,
        address: u32,
        address_end: u32,
        start_ind: TraceId,
        end_ind: TraceId,
    ) -> (res: Vec<HistoryEntry>)
        ensures
            res@ == self@.latest_writes(
                address as int,
                address_end as int,
                start_ind as int,
                end_ind as int,
            ),
    {
        let mut res: Vec<HistoryEntry> = Vec::new();
        let mut cursor = address;
        while cursor < address_end
            invariant
                address <= cursor,
                self@.latest_writes(
                    address as int,
                    address_end as int,
                    start_ind as int,
                    end_ind as int,
                ) == res@ + self@.latest_writes(
                    cursor as int,
                    address_end as int,
                    start_ind as int,
                    end_ind as int,
                ),
            decreases address_end - cursor,
        {
            match self.get_latest_write_between(cursor, start_ind, end_ind) {
                Some(entry) => {
                    let ghost before = res@;
                    res.push(entry);
                    assert(res@ =~= before + seq![entry]);
                    assert(before + (seq![entry] + self@.latest_writes(
                        cursor + 1,
                        address_end as int,
                        start_ind as int,
                        end_ind as int,
                    )) =~= res@ + self@.latest_writes(
                        cursor + 1,
                        address_end as int,
                        start_ind as int,
                        end_ind as int,
                    ));
                },
                None => {
                    return res;
                },
            }
            cursor += 1;
        }
        res
    }

    /// The values of the latest writes of `get_latest_writes_between`.
    pub fn get_between(
        &self,
        address: u32,
        address_end: u32,
        start_ind: TraceId,
        end_ind: TraceId,
    ) -> (res: Vec<u8>)
        ensures
            res@ == self@.latest_writes(
                address as int,
                address_end as int,
                start_ind as int,
                end_ind as int,
            ).map_values(|entry: HistoryEntry| entry.value),
    {
        let entries = self.get_latest_writes_between(address, address_end, start_ind, end_ind);
        let mut res: Vec<u8> = Vec::new();
        let mut i: usize = 0;
        while i < entries.len()
            invariant
                i <= entries@.len(),
                res@.len() == i,
                forall|j: int| 0 <= j < i ==> res@[j] == entries@[j].value,
            decreases entries.len() - i,
        {
            res.push(entries[i].value);
            i += 1;
        }
        assert(res@ =~= entries@.map_values(|entry: HistoryEntry| entry.value));
        res
    }

    /// The latest of the writes to a memory location from `start_ind` on, before `end_ind`.
    pub fn get_latest_write_between(
        &self,
        address: u32,
        start_ind: TraceId,
        end_ind: TraceId,
    ) -> (res: Option<HistoryEntry>)
        ensures
            res == self@.latest_write(address, start_ind as int, end_ind as int),
    {
        match map_get(&self.writes, &address) {
            Some(history) => {
                let events = get_events_between(history.as_slice(), start_ind, end_ind);
                if events.len() > 0 {
                    Some(events[events.len() - 1])
                } else {
                    None
                }
            },
            None => {
                assert(events_between(Seq::empty(), start_ind as int, end_ind as int).len() == 0);
                None
            },
        }
    }

    /// The first read of a memory location after `timestamp`.
    pub fn get_read_after(&self, address: u32, timestamp: TraceId) -> (res: Option<&HistoryEntry>)
        ensures
            entry_of(res) == next_after(seq_at(self@.reads, address), timestamp as int),
    {
        match map_get(&self.reads, &address) {
            Some(history) => get_next_event_after(history.as_slice(), timestamp),
            None => None,
        }
    }

    /// The first write to a memory location after `timestamp`.
    pub fn get_write_after(&self, address: u32, timestamp: TraceId) -> (res: Option<&HistoryEntry>)
        ensures
            entry_of(res) == next_after(seq_at(self@.writes, address), timestamp as int),
    {
        match map_get(&self.writes, &address) {
            Some(history) => get_next_event_after(history.as_slice(), timestamp),
            None => None,
        }
    }
}

/// `u8::from_le_bytes` of `endiannezz`: the byte itself.
#[verifier::external_body]
fn u8_from_le_bytes(data: [u8; 1]) -> (res: u8)
    ensures
        res == data@[0],
{
    <u8 as endiannezz::Primitive>::from_le_bytes(data)
}

/// `u16::from_le_bytes` of `endiannezz`: the number whose least byte stands first.
#[verifier::external_body]
fn u16_from_le_bytes(data: [u8; 2]) -> (res: u16)
    ensures
        res == data@[0] + 0x100 * data@[1],
{
    <u16 as endiannezz::Primitive>::from_le_bytes(data)
}

/// `u32::from_le_bytes` of `endiannezz`: the number whose least byte stands first.
#[verifier::external_body]
fn u32_from_le_bytes(data: [u8; 4]) -> (res: u32)
    ensures
        res == data@[0] + 0x100 * data@[1] + 0x1_0000 * data@[2] + 0x100_0000 * data@[3],
{
    <u32 as endiannezz::Primitive>::from_le_bytes(data)
}

/// An unsigned number that is read from little-endian bytes.
pub trait LeNumber: Copy {
    /// The number of bytes.
    spec fn width() -> nat;

    /// The number.
    spec fn number(self) -> nat;

    /// The number of bytes.
    fn byte_count() -> (res: usize)
        ensures
            res == Self::width(),
            res == 1 || res == 2 || res == 4,
    ;

    /// The number that the bytes make up.
    fn from_bytes(bytes: &[u8]) -> (res: Self)
        requires
            bytes@.len() == Self::width(),
        ensures
            res.number() == le_value(bytes@),
    ;

    /// The number as a 64-bit integer.
    fn to_u64(self) -> (res: u64)
        ensures
            res == self.number(),
    ;
}

impl LeNumber for u8 {
    open spec fn width() -> nat {
        1
    }

    open spec fn number(self) -> nat {
        self as nat
    }

    fn byte_count() -> (res: usize) {
        1
    }

    fn from_bytes(bytes: &[u8]) -> (res: Self) {
        proof {
            reveal_with_fuel(le_value, 2);
        }
        u8_from_le_bytes([bytes[0]])
    }

    fn to_u64(self) -> (res: u64) {
        self as u64
    }
}

impl LeNumber for u16 {
    open spec fn width() -> nat {
        2
    }

    open spec fn number(self) -> nat {
        self as nat
    }

    fn byte_count() -> (res: usize) {
        2
    }

    fn from_bytes(bytes: &[u8]) -> (res: Self) {
        proof {
            reveal_with_fuel(le_value, 3);
        }
        u16_from_le_bytes([bytes[0], bytes[1]])
    }

    fn to_u64(self) -> (res: u64) {
        self as u64
    }
}

impl LeNumber for u32 {
    open spec fn width() -> nat {
        4
    }

    open spec fn number(self) -> nat {
        self as nat
    }

    fn byte_count() -> (res: usize) {
        4
    }

    fn from_bytes(bytes: &[u8]) -> (res: Self) {
        proof {
            reveal_with_fuel(le_value, 5);
        }
        u32_from_le_bytes([bytes[0], bytes[1], bytes[2], bytes[3]])
    }

    fn to_u64(self) -> (res: u64) {
        self as u64
    }
}

/// A number that may be absent.
pub open spec fn number_of<V: LeNumber>(value: Option<V>) -> Option<nat> {
    match value {
        Some(value) => Some(value.number()),
        None => None,
    }
}

/// The number at `address` of a plain memory.
pub fn read<T: LeNumber>(memory: &[u8], address: usize) -> (res: T)
    requires
        address + T::width() <= memory@.len(),
    ensures
        res.number() == le_value(memory@.subrange(address as int, address + T::width())),
{
    let width = T::byte_count();
    let len = memory.len();
    let mut data: Vec<u8> = Vec::new();
    let mut i: usize = 0;
    while i < width
        invariant
            i <= width,
            width == T::width(),
            address + T::width() <= len,
            len == memory@.len(),
            data@ == memory@.subrange(address as int, address + i),
        decreases width - i,
    {
        data.push(memory[address + i]);
        i += 1;
        assert(data@ =~= memory@.subrange(address as int, address + i));
    }
    T::from_bytes(data.as_slice())
}

impl<'a> MemoryView<'a> {
    /// The byte at an address.
    pub fn read_u8(&self, address: Address) -> (res: Option<u8>)
        requires
            in_time_order(seq_at(self.memory@.writes, address)),
        ensures
            res == self.memory@.byte_in(self.time, address as int),
    {
        match map_get(&self.memory.writes, &address) {
            Some(writes) => match find_deciding(writes.as_slice(), &self.time) {
                Some(entry) => Some(entry.value),
                None => None,
            },
            None => None,
        }
    }

    /// The little-endian number at an address, where all of its bytes are there.
    pub fn read<V: LeNumber>(&self, address: Address) -> (res: Option<V>)
        requires
            address + V::width() <= 0x1_0000_0000 || exists|a: int|
                address <= a <= Address::MAX && #[trigger] self.memory@.byte_in(
                    self.time,
                    a,
                ) is None,
            forall|i: int|
                0 <= i < V::width() && address + i <= Address::MAX ==> in_time_order(
                    #[trigger] seq_at(self.memory@.writes, (address + i) as Address),
                ),
        ensures
            number_of(res) == self.memory@.number_in(self.time, address as int, V::width()),
    {
        let width = V::byte_count();
        let mut data: Vec<u8> = Vec::new();
        let mut i: usize = 0;
        while i < width
            invariant
                i <= width <= 4,
                width == V::width(),
                address + V::width() <= 0x1_0000_0000 || exists|a: int|
                    address <= a <= Address::MAX && #[trigger] self.memory@.byte_in(
                        self.time,
                        a,
                    ) is None,
                forall|i: int|
                    0 <= i < V::width() && address + i <= Address::MAX ==> in_time_order(
                        #[trigger] seq_at(self.memory@.writes, (address + i) as Address),
                    ),
                data@.len() == i,
                forall|j: int|
                    0 <= j < i ==> #[trigger] self.memory@.byte_in(self.time, address + j) == Some(
                        data@[j],
                    ),
            decreases width - i,
        {
            assert(address + i <= Address::MAX) by {
                if address + i > Address::MAX {
                    let a = choose|a: int|
                        address <= a <= Address::MAX && #[trigger] self.memory@.byte_in(
                            self.time,
                            a,
                        ) is None;
                    assert(self.memory@.byte_in(self.time, address + (a - address)) == Some(
                        data@[a - address],
                    ));
                }
            }
            assert(seq_at(self.memory@.writes, (address + i) as Address) == seq_at(
                self.memory@.writes,
                (address + i as int) as Address,
            ));
            match self.read_u8(address + i as Address) {
                Some(byte) => data.push(byte),
                None => {
                    assert(self.memory@.byte_in(self.time, address + i) is None);
                    return None;
                },
            }
            i += 1;
        }
        assert(data@ =~= self.memory@.bytes_in(self.time, address as int, V::width())->0);
        Some(V::from_bytes(data.as_slice()))
    }

    /// Whether the byte at an address was written.
    pub fn is_initialized(&self, address: Address) -> (res: bool)
        requires
            in_time_order(seq_at(self.memory@.writes, address)),
        ensures
            res == (self.memory@.byte_in(self.time, address as int) is Some),
    {
        match map_get(&self.memory.writes, &address) {
            Some(writes) => find_deciding(writes.as_slice(), &self.time).is_some(),
            None => false,
        }
    }
}

} // verus!
