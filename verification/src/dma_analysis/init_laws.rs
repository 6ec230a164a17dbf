//! What the initialisation state of a buffer says of the events of the trace.

use super::event_laws::{accesses, lemma_history_events};
use super::init_state::{
    bulk_range, first_or, init_state, last_step, lemma_pattern_bound, pattern_in, pattern_of_width,
    present_below, present_from, repetitions_after, repetitions_before, repetitions_down,
    scanned_back, scanned_forward, single_write, BulkInitRange,
};
use super::trace_info::TraceModel;
use super::types::InitializationState;
use crate::common::{Address, RamAddress, TraceId};
use crate::hoedur::bintrace::{AccessType, TraceEvent};
use crate::mem_view::{
    after, byte_of, index_since, latest_until, le_value, next_between, since, until, HistoryModel,
    TimeRange,
};
use crate::scan::{first_from, lemma_first_from, lemma_last_before};
use crate::tables::seq_at;
use vstd::prelude::*;

verus! {

/// There is an access of the given direction to the byte at `a` at one of the positions from `from`
/// on, before `to`.
pub open spec fn accessed(
    events: Seq<TraceEvent>,
    from: int,
    to: int,
    access_type: AccessType,
    a: int,
) -> bool {
    exists|i: int| from <= i < to && #[trigger] accesses(events, i, access_type, a)
}

/// The access at `i` is the last one of the given direction to the byte at `a` at one of the
/// positions from `from` on, before `to`.
pub open spec fn last_access(
    events: Seq<TraceEvent>,
    from: int,
    to: int,
    access_type: AccessType,
    a: int,
    i: int,
) -> bool {
    &&& from <= i < to
    &&& accesses(events, i, access_type, a)
    &&& forall|j: int| i < j < to ==> !#[trigger] accesses(events, j, access_type, a)
}

/// The entry of a history that counts at a position is the last access up to it.
proof fn lemma_latest_entry(t: TraceModel, access_type: AccessType, a: Address, time: int)
    requires
        t.wf(),
    ensures
        match latest_until(seq_at(t.mem.of_type(access_type), a), time) {
            Some(entry) => last_access(
                t.events,
                0,
                time + 1,
                access_type,
                a as int,
                entry.trace_ind as int,
            ) && entry.value == byte_of(
                t.events[entry.trace_ind as int].access().value,
                a - t.events[entry.trace_ind as int].access().address,
            ),
            None => !accessed(t.events, 0, time + 1, access_type, a as int),
        },
{
    lemma_history_events(t.events, access_type, a);
    let h = seq_at(t.mem.of_type(access_type), a);
    let p = until(h, time);
    lemma_last_before(h.len() as int, p);
    assert forall|i: int|
        0 <= i < time + 1 && #[trigger] accesses(
            t.events,
            i,
            access_type,
            a as int,
        ) implies exists|j: int| 0 <= j < h.len() && (#[trigger] h[j]).trace_ind == i && p(j) by {
        let j = choose|j: int| 0 <= j < h.len() && (#[trigger] h[j]).trace_ind == i;
        assert(p(j));
    }
}

/// A byte that a window shows is the byte that the last write to it in the window wrote, and a
/// window shows no byte that is not written in it.
pub proof fn lemma_byte_events(t: TraceModel, start: TraceId, end: TraceId, a: Address)
    requires
        t.wf(),
    ensures
        start < end ==> match t.mem.byte_in(TimeRange::between(start, end), a as int) {
            Some(b) => exists|i: int|
                #[trigger] last_access(
                    t.events,
                    start as int,
                    end as int,
                    AccessType::Write,
                    a as int,
                    i,
                ) && b == byte_of(
                    t.events[i].access().value,
                    a - t.events[i].access().address,
                ),
            None => !accessed(t.events, start as int, end as int, AccessType::Write, a as int),
        },
        start <= end ==> match t.mem.byte_in(TimeRange::through(start, end), a as int) {
            Some(b) => exists|i: int|
                #[trigger] last_access(
                    t.events,
                    start as int,
                    end + 1,
                    AccessType::Write,
                    a as int,
                    i,
                ) && b == byte_of(
                    t.events[i].access().value,
                    a - t.events[i].access().address,
                ),
            None => !accessed(t.events, start as int, end + 1, AccessType::Write, a as int),
        },
{
    let h = seq_at(t.mem.writes, a);
    if start < end {
        lemma_latest_entry(t, AccessType::Write, a, end - 1);
        if let Some(entry) = latest_until(h, end - 1) {
            let i = entry.trace_ind as int;
            if start <= i {
                assert(last_access(
                    t.events,
                    start as int,
                    end as int,
                    AccessType::Write,
                    a as int,
                    i,
                ));
            }
        }
    }
    if start <= end {
        lemma_latest_entry(t, AccessType::Write, a, end as int);
        if let Some(entry) = latest_until(h, end as int) {
            let i = entry.trace_ind as int;
            if start <= i {
                assert(last_access(
                    t.events,
                    start as int,
                    end + 1,
                    AccessType::Write,
                    a as int,
                    i,
                ));
            }
        }
    }
}

/// A further write is looked for strictly inside the window.
proof fn lemma_write_inside(t: TraceModel, a: RamAddress, start: int, end: int)
    requires
        t.wf(),
    ensures
        next_between(seq_at(t.mem.writes, a), start, end) is Some <==> accessed(
            t.events,
            start + 1,
            end,
            AccessType::Write,
            a as int,
        ),
{
    lemma_history_events(t.events, AccessType::Write, a);
    let h = seq_at(t.mem.writes, a);
    lemma_first_from(0, h.len() as int, since(h, end));
    let n = index_since(h, 0, end);
    lemma_first_from(0, n, after(h, start));
    assert forall|i: int|
        start + 1 <= i < end && #[trigger] accesses(
            t.events,
            i,
            AccessType::Write,
            a as int,
        ) implies next_between(h, start, end) is Some by {
        let j = choose|j: int| 0 <= j < h.len() && (#[trigger] h[j]).trace_ind == i;
        assert(after(h, start)(j));
        if n <= j && n < h.len() {
            assert(since(h, end)(n));
            assert(h[n].trace_ind <= h[j].trace_ind);
        }
    }
    if next_between(h, start, end) is Some {
        let k = first_from(0, n, after(h, start))->0;
        assert(!since(h, end)(k));
        assert(accesses(t.events, h[k].trace_ind as int, AccessType::Write, a as int));
    }
}

/// Counts what is not there from a byte on.
proof fn lemma_first_or(n: int, p: spec_fn(int) -> bool)
    requires
        0 <= n,
    ensures
        0 <= first_or(n, p) <= n,
        forall|k: int| 0 <= k < first_or(n, p) ==> !#[trigger] p(k),
        first_or(n, p) < n ==> p(first_or(n, p)),
{
    lemma_first_from(0, n, p);
}

/// A buffer is uninitialised where no byte of it is written in the window: `len` is the number of
/// bytes from its start on, and `len_before` the number of bytes in front of it, without a write in
/// the window, as far as `max_num_inited`. Every buffer whose start is not written in the window is
/// uninitialised, wherever the bytes to be looked at are in the address space, and only those are.
pub proof fn lemma_uninitialized_events(
    t: TraceModel,
    address: RamAddress,
    start_ind: TraceId,
    end_ind: TraceId,
    max_num_inited: Address,
)
    requires
        t.wf(),
        start_ind < end_ind,
    ensures
        ({
            let written = |a: int|
                accessed(t.events, start_ind as int, end_ind as int, AccessType::Write, a);
            let state = init_state(t, address, start_ind, end_ind, max_num_inited);
            &&& (state matches Some(InitializationState::Uninitialized { len, len_before }) ==> {
                &&& 0 < len <= max_num_inited
                &&& forall|k: int| 0 <= k < len ==> !written(#[trigger] (address + k))
                &&& len < max_num_inited ==> written(address + len)
                &&& len_before <= max_num_inited
                &&& forall|k: int| 0 < k <= len_before ==> !written(#[trigger] (address - k))
                &&& len_before < max_num_inited ==> written(address - len_before - 1)
            })
            &&& !written(address as int) && 0 < max_num_inited <= address && address
                + max_num_inited <= Address::MAX ==> state is Some && state->0 is Uninitialized
            &&& accessed(
                t.events,
                start_ind + 1,
                end_ind as int,
                AccessType::Write,
                address as int,
            ) ==> !(state is Some && state->0 is Uninitialized)
        }),
{
    let written = |a: int|
        accessed(t.events, start_ind as int, end_ind as int, AccessType::Write, a);
    let time = TimeRange::between(start_ind, end_ind);
    lemma_write_inside(t, address, start_ind as int, end_ind as int);
    if !(max_num_inited > address || address + max_num_inited > Address::MAX) {
        let n = max_num_inited as int;
        let p = present_from(t.mem, time, address as int);
        let q = present_below(t.mem, time, address as int);
        lemma_first_or(n, p);
        lemma_first_or(n, q);
        assert forall|a: int| 0 <= a <= Address::MAX implies (#[trigger] written(a)
            <==> t.mem.byte_in(time, a) is Some) by {
            lemma_byte_events(t, start_ind, end_ind, a as Address);
        }
        let len = first_or(n, p);
        let len_before = first_or(n, q);
        assert forall|k: int| 0 <= k < len implies !written(#[trigger] (address + k)) by {
            assert(!p(k));
        }
        assert forall|k: int| 0 < k <= len_before implies !written(#[trigger] (address - k)) by {
            assert(!q(k - 1));
        }
        if len < n {
            assert(p(len));
            assert(written(address + len));
        }
        if len_before < n {
            assert(q(len_before));
            assert(written(address - len_before - 1));
        }
    }
}

/// The repetitions of a value from an address on are all there, and no further one is.
proof fn lemma_after_all(
    m: HistoryModel,
    time: TimeRange,
    n: int,
    value: nat,
    addr: int,
    end: int,
)
    requires
        n == 1 || n == 2 || n == 4,
    ensures
        ({
            let k = repetitions_after(m, time, n, value, addr, end);
            &&& 0 <= k
            &&& forall|r: int|
                0 <= r < k ==> addr + r * n < end && #[trigger] m.number_in(
                    time,
                    addr + r * n,
                    n as nat,
                ) == Some(value)
            &&& addr + k * n < end ==> m.number_in(time, addr + k * n, n as nat) != Some(value)
        }),
    decreases end - addr + n,
{
    let k = repetitions_after(m, time, n, value, addr, end);
    if addr < end && m.number_in(time, addr, n as nat) == Some(value) {
        lemma_after_all(m, time, n, value, addr + n, end);
        assert forall|r: int| 0 <= r < k implies addr + r * n < end && #[trigger] m.number_in(
            time,
            addr + r * n,
            n as nat,
        ) == Some(value) by {
            if r > 0 {
                assert(addr + n + (r - 1) * n == addr + r * n) by (nonlinear_arith);
                assert(m.number_in(time, addr + n + (r - 1) * n, n as nat) == Some(value));
            }
        }
        assert(addr + n + (k - 1) * n == addr + k * n) by (nonlinear_arith);
    }
}

/// The repetitions of a value downwards are all there, and no further one is.
proof fn lemma_down_all(
    m: HistoryModel,
    time: TimeRange,
    n: int,
    value: nat,
    start: int,
    a: int,
)
    requires
        n == 1 || n == 2 || n == 4,
    ensures
        ({
            let k = repetitions_down(m, time, n, value, start, a);
            &&& 0 <= k
            &&& forall|r: int|
                0 <= r < k ==> start <= a - r * n && #[trigger] m.number_in(
                    time,
                    a - r * n,
                    n as nat,
                ) == Some(value)
            &&& start <= a - k * n ==> m.number_in(time, a - k * n, n as nat) != Some(value)
        }),
    decreases a - start + n,
{
    let k = repetitions_down(m, time, n, value, start, a);
    if start <= a && m.number_in(time, a, n as nat) == Some(value) {
        lemma_down_all(m, time, n, value, start, a - n);
        assert forall|r: int| 0 <= r < k implies start <= a - r * n && #[trigger] m.number_in(
            time,
            a - r * n,
            n as nat,
        ) == Some(value) by {
            if r > 0 {
                assert(a - n - (r - 1) * n == a - r * n) by (nonlinear_arith);
                assert(m.number_in(time, a - n - (r - 1) * n, n as nat) == Some(value));
            }
        }
        assert(a - n - (k - 1) * n == a - k * n) by (nonlinear_arith);
    }
}

/// So many repetitions of a value are enough for a pattern: two of a value that memory is typically
/// initialised with, and eight bytes of any other value.
pub open spec fn is_enough(repetitions: int, value: int, n: int) -> bool {
    if value == 0 || value == 0xff || value == 0xffff || value == 0xffffffff {
        repetitions >= 2
    } else {
        repetitions * n >= 8
    }
}

/// The number that up to four bytes make up is less than two to the thirty-second.
proof fn lemma_le_bound(bytes: Seq<u8>)
    requires
        bytes.len() <= 4,
    ensures
        le_value(bytes) < 0x1_0000_0000,
{
    reveal_with_fuel(le_value, 6);
}

/// The repetitions of a value in front of an address, in steps from `start` on, are all there, and
/// no further one is.
proof fn lemma_before_all(
    m: HistoryModel,
    time: TimeRange,
    n: int,
    value: nat,
    start: int,
    addr: int,
)
    requires
        n == 1 || n == 2 || n == 4,
        start <= addr,
    ensures
        ({
            let before = repetitions_before(m, time, n, value, start, addr);
            &&& 0 <= before <= addr - start
            &&& (addr - start) % n == 0 ==> {
                &&& forall|r: int|
                    1 <= r <= before ==> start <= addr - r * n && #[trigger] m.number_in(
                        time,
                        addr - r * n,
                        n as nat,
                    ) == Some(value)
                &&& start <= addr - (before + 1) * n ==> m.number_in(
                    time,
                    addr - (before + 1) * n,
                    n as nat,
                ) != Some(value)
            }
        }),
{
    let a = last_step(start, addr, n);
    lemma_down_all(m, time, n, value, start, a);
    let before = repetitions_before(m, time, n, value, start, addr);
    assert(a < addr) by {
        if n == 1 {
        } else if n == 2 {
        } else {
        }
    }
    if before > 0 {
        assert(m.number_in(time, a - (before - 1) * n, n as nat) == Some(value));
        assert((before - 1) * n >= before - 1) by (nonlinear_arith)
            requires
                n >= 1,
                before >= 1,
        ;
    }
    if (addr - start) % n == 0 {
        if addr > start {
            assert(a == addr - n) by {
                if n == 1 {
                } else if n == 2 {
                } else {
                }
            }
            assert forall|r: int| 1 <= r <= before implies start <= addr - r * n
                && #[trigger] m.number_in(time, addr - r * n, n as nat) == Some(value) by {
                assert(a - (r - 1) * n == addr - r * n) by (nonlinear_arith)
                    requires
                        a == addr - n,
                ;
                assert(m.number_in(time, a - (r - 1) * n, n as nat) == Some(value));
            }
            assert(a - before * n == addr - (before + 1) * n) by (nonlinear_arith)
                requires
                    a == addr - n,
            ;
        } else {
            assert((before + 1) * n >= 1) by (nonlinear_arith)
                requires
                    n >= 1,
                    before >= 0,
            ;
        }
    }
}

/// The pattern of one width, and when there is one.
proof fn lemma_width_repeats(
    m: HistoryModel,
    time: TimeRange,
    start: int,
    end: int,
    offset: int,
    n: int,
)
    requires
        0 <= start <= end <= Address::MAX,
        0 <= offset <= end - start,
        n == 1 || n == 2 || n == 4,
    ensures
        pattern_of_width(m, time, start, end, offset, n) matches Some(pattern) ==> {
            let addr = start + offset;
            let value = Some(pattern.value as nat);
            &&& pattern.pattern_len == n
            &&& addr % n == 0
            &&& m.number_in(time, addr, n as nat) == value
            &&& pattern.repetitions == repetitions_after(
                m,
                time,
                n,
                pattern.value as nat,
                addr,
                end,
            )
            &&& forall|r: int|
                0 <= r < pattern.repetitions ==> addr + r * n < end && #[trigger] m.number_in(
                    time,
                    addr + r * n,
                    n as nat,
                ) == value
            &&& addr + pattern.repetitions * n < end ==> m.number_in(
                time,
                addr + pattern.repetitions * n,
                n as nat,
            ) != value
            &&& is_enough(pattern.repetitions + pattern.repetitions_before, pattern.value as int, n)
            &&& offset % n == 0 ==> {
                &&& forall|r: int|
                    1 <= r <= pattern.repetitions_before ==> start <= addr - r * n
                        && #[trigger] m.number_in(time, addr - r * n, n as nat) == value
                &&& start <= addr - (pattern.repetitions_before + 1) * n ==> m.number_in(
                    time,
                    addr - (pattern.repetitions_before + 1) * n,
                    n as nat,
                ) != value
            }
        },
        pattern_of_width(m, time, start, end, offset, n) is None ==> {
            let addr = start + offset;
            m.number_in(time, addr, n as nat) matches Some(value) ==> addr % n != 0 || start + n
                > end || !is_enough(
                repetitions_after(m, time, n, value, addr, end),
                value as int,
                n,
            )
        },
{
    let addr = start + offset;
    if let Some(value) = m.number_in(time, addr, n as nat) {
        lemma_le_bound(m.bytes_in(time, addr, n as nat)->0);
        lemma_after_all(m, time, n, value, addr, end);
        let k = repetitions_after(m, time, n, value, addr, end);
        if k > 0 {
            assert(m.number_in(time, addr + (k - 1) * n, n as nat) == Some(value));
            assert((k - 1) * n >= k - 1) by (nonlinear_arith)
                requires
                    n >= 1,
                    k >= 1,
            ;
        }
        lemma_before_all(m, time, n, value, start, addr);
        let before = repetitions_before(m, time, n, value, start, addr);
        assert((k + before) * n >= k * n) by (nonlinear_arith)
            requires
                n >= 1,
                before >= 0,
        ;
    }
}

/// A pattern is a value of one, two or four bytes at an aligned address, of which all repetitions
/// are there: from that address on, up to the end of the range or to another value, and in front of
/// it, in steps from the start of the range, back to that start or to another value. Together they
/// are enough for a pattern.
pub proof fn lemma_pattern_repeats(
    m: HistoryModel,
    time: TimeRange,
    start: int,
    end: int,
    offset: int,
)
    requires
        0 <= start <= end <= Address::MAX,
        0 <= offset <= end - start,
    ensures
        pattern_in(m, time, start, end, offset) matches Some(pattern) ==> {
            let addr = start + offset;
            let n = pattern.pattern_len as int;
            let value = Some(pattern.value as nat);
            &&& n == 1 || n == 2 || n == 4
            &&& addr % n == 0
            &&& forall|r: int|
                0 <= r < pattern.repetitions ==> addr + r * n < end && #[trigger] m.number_in(
                    time,
                    addr + r * n,
                    n as nat,
                ) == value
            &&& addr + pattern.repetitions * n < end ==> m.number_in(
                time,
                addr + pattern.repetitions * n,
                n as nat,
            ) != value
            &&& is_enough(pattern.repetitions + pattern.repetitions_before, pattern.value as int, n)
            &&& offset % n == 0 ==> {
                &&& forall|r: int|
                    1 <= r <= pattern.repetitions_before ==> start <= addr - r * n
                        && #[trigger] m.number_in(time, addr - r * n, n as nat) == value
                &&& start <= addr - (pattern.repetitions_before + 1) * n ==> m.number_in(
                    time,
                    addr - (pattern.repetitions_before + 1) * n,
                    n as nat,
                ) != value
            }
        },
{
    lemma_width_repeats(m, time, start, end, offset, 1);
    lemma_width_repeats(m, time, start, end, offset, 2);
    lemma_width_repeats(m, time, start, end, offset, 4);
}

/// Enough repetitions of a value of `n` bytes, from an aligned address on, make a pattern: one of
/// that value, with at least these repetitions, or one of narrower values.
pub proof fn lemma_repeats_make_pattern(
    m: HistoryModel,
    time: TimeRange,
    start: int,
    end: int,
    offset: int,
    n: int,
    value: nat,
    repetitions: int,
)
    requires
        0 <= start <= end <= Address::MAX,
        0 <= offset <= end - start,
        n == 1 || n == 2 || n == 4,
        (start + offset) % n == 0,
        start + n <= end,
        is_enough(repetitions, value as int, n),
        forall|r: int|
            0 <= r < repetitions ==> start + offset + r * n < end && #[trigger] m.number_in(
                time,
                start + offset + r * n,
                n as nat,
            ) == Some(value),
    ensures
        pattern_in(m, time, start, end, offset) matches Some(pattern) && pattern.pattern_len <= n
            && (pattern.pattern_len == n ==> pattern.value == value && pattern.repetitions
            >= repetitions),
{
    let addr = start + offset;
    lemma_width_repeats(m, time, start, end, offset, 1);
    lemma_width_repeats(m, time, start, end, offset, 2);
    lemma_width_repeats(m, time, start, end, offset, 4);
    assert(repetitions > 0) by {
        if repetitions <= 0 {
            assert(repetitions * n <= 0) by (nonlinear_arith)
                requires
                    repetitions <= 0,
                    n >= 1,
            ;
        }
    }
    assert(m.number_in(time, addr + 0 * n, n as nat) == Some(value));
    lemma_after_all(m, time, n, value, addr, end);
    let k = repetitions_after(m, time, n, value, addr, end);
    if k < repetitions {
        assert(m.number_in(time, addr + k * n, n as nat) == Some(value));
    }
    assert(k * n >= repetitions * n) by (nonlinear_arith)
        requires
            n >= 1,
            k >= repetitions,
    ;
}

/// The event at `i` is a write.
pub open spec fn is_write(events: Seq<TraceEvent>, i: int) -> bool {
    events[i].access().access_type is Write
}

/// The number of bytes that are written at the positions from `from` on, before `to`.
pub open spec fn bytes_written(events: Seq<TraceEvent>, from: int, to: int) -> int
    decreases to - from,
{
    if from >= to {
        0
    } else if is_write(events, to - 1) {
        bytes_written(events, from, to - 1) + events[to - 1].access().size
    } else {
        bytes_written(events, from, to - 1)
    }
}

/// The bytes of two stretches of positions add up.
proof fn lemma_bytes_written(events: Seq<TraceEvent>, from: int, mid: int, to: int)
    requires
        from <= mid <= to,
    ensures
        bytes_written(events, from, to) == bytes_written(events, from, mid) + bytes_written(
            events,
            mid,
            to,
        ),
    decreases to - mid,
{
    if mid < to {
        lemma_bytes_written(events, from, mid, to - 1);
    }
}

/// Positions without a write do not count.
proof fn lemma_nothing_written(events: Seq<TraceEvent>, from: int, to: int)
    requires
        forall|k: int| from <= k < to ==> !#[trigger] is_write(events, k),
    ensures
        bytes_written(events, from, to) == 0,
    decreases to - from,
{
    if from < to {
        assert(!is_write(events, to - 1));
        lemma_nothing_written(events, from, to - 1);
    }
}

/// The write at `i` starts where the range ends, or ends where it starts.
pub open spec fn adjoins(events: Seq<TraceEvent>, i: int, r: BulkInitRange) -> bool {
    let access = events[i].access();
    access.address == r.end_addr || access.address + access.size == r.start_addr
}

/// The bytes of the write at `i` lie in the range.
pub open spec fn covers(r: BulkInitRange, events: Seq<TraceEvent>, i: int) -> bool {
    let access = events[i].access();
    r.start_addr <= access.address && access.address + access.size <= r.end_addr
}

/// Backwards, the range grows by exactly the writes that it takes in, and the write in front of them
/// does not adjoin it.
pub proof fn lemma_scanned_back_writes(
    events: Seq<TraceEvent>,
    start: int,
    i: int,
    r: BulkInitRange,
)
    requires
        0 <= start <= i <= r.start_ind <= events.len() <= TraceId::MAX,
        r.start_addr <= r.end_addr,
        forall|k: int| i <= k < r.start_ind ==> !#[trigger] is_write(events, k),
    ensures
        scanned_back(events, start, i, r) matches Some(after) ==> {
            &&& start <= after.start_ind <= r.start_ind
            &&& after.end_ind == r.end_ind
            &&& after.start_addr <= r.start_addr && r.end_addr <= after.end_addr
            &&& (after.end_addr - after.start_addr) - (r.end_addr - r.start_addr) == bytes_written(
                events,
                after.start_ind as int,
                r.start_ind as int,
            )
            &&& forall|k: int|
                after.start_ind <= k < r.start_ind && #[trigger] is_write(events, k) ==> covers(
                    after,
                    events,
                    k,
                )
            &&& after.start_ind < r.start_ind ==> is_write(events, after.start_ind as int)
            &&& forall|k: int|
                start <= k < after.start_ind && #[trigger] is_write(events, k) && (forall|j: int|
                    k < j < after.start_ind ==> !#[trigger] is_write(events, j)) ==> !adjoins(
                    events,
                    k,
                    after,
                )
        },
        scanned_back(events, start, i, r) is None ==> exists|k: int|
            start <= k < i && #[trigger] is_write(events, k) && events[k].access().address
                + events[k].access().size > Address::MAX,
    decreases i - start,
{
    if i > start {
        let access = events[i - 1].access();
        if is_write(events, i - 1) {
            if access.address + access.size > Address::MAX {
            } else if adjoins(events, i - 1, r) {
                let next = if access.address == r.end_addr {
                    BulkInitRange {
                        end_addr: (access.address + access.size) as RamAddress,
                        start_ind: (i - 1) as TraceId,
                        ..r
                    }
                } else {
                    BulkInitRange {
                        start_addr: access.address,
                        start_ind: (i - 1) as TraceId,
                        ..r
                    }
                };
                lemma_scanned_back_writes(events, start, i - 1, next);
                lemma_nothing_written(events, i, r.start_ind as int);
                lemma_bytes_written(events, i - 1, i, r.start_ind as int);
                assert(bytes_written(events, i - 1, i - 1) == 0);
                assert(bytes_written(events, i - 1, i) == access.size);
                if let Some(after) = scanned_back(events, start, i - 1, next) {
                    lemma_bytes_written(events, after.start_ind as int, i - 1, r.start_ind as int);
                    assert forall|k: int|
                        after.start_ind <= k < r.start_ind && #[trigger] is_write(
                            events,
                            k,
                        ) implies covers(after, events, k) by {
                        if k < i - 1 {
                        } else {
                            assert(k == i - 1);
                        }
                    }
                }
            } else {
                lemma_nothing_written(events, r.start_ind as int, r.start_ind as int);
            }
        } else {
            lemma_scanned_back_writes(events, start, i - 1, r);
        }
    }
}

/// Forwards, the range grows by exactly the writes that it takes in, and the write behind them does
/// not adjoin it.
pub proof fn lemma_scanned_forward_writes(
    events: Seq<TraceEvent>,
    i: int,
    end: int,
    r: BulkInitRange,
)
    requires
        0 <= r.end_ind < i <= end <= events.len() <= TraceId::MAX,
        r.start_addr <= r.end_addr,
        forall|k: int| r.end_ind < k < i ==> !#[trigger] is_write(events, k),
    ensures
        scanned_forward(events, i, end, r) matches Some(after) ==> {
            &&& r.end_ind <= after.end_ind < end
            &&& after.start_ind == r.start_ind
            &&& after.start_addr <= r.start_addr && r.end_addr <= after.end_addr
            &&& (after.end_addr - after.start_addr) - (r.end_addr - r.start_addr) == bytes_written(
                events,
                r.end_ind + 1,
                after.end_ind + 1,
            )
            &&& forall|k: int|
                r.end_ind < k <= after.end_ind && #[trigger] is_write(events, k) ==> covers(
                    after,
                    events,
                    k,
                )
            &&& r.end_ind < after.end_ind ==> is_write(events, after.end_ind as int)
            &&& forall|k: int|
                after.end_ind < k < end && #[trigger] is_write(events, k) && (forall|j: int|
                    after.end_ind < j < k ==> !#[trigger] is_write(events, j)) ==> !adjoins(
                    events,
                    k,
                    after,
                )
        },
        scanned_forward(events, i, end, r) is None ==> exists|k: int|
            i <= k < end && #[trigger] is_write(events, k) && events[k].access().address
                + events[k].access().size > Address::MAX,
    decreases end - i,
{
    lemma_nothing_written(events, r.end_ind + 1, r.end_ind + 1);
    if i < end {
        let access = events[i].access();
        if is_write(events, i) {
            if access.address + access.size > Address::MAX {
            } else if adjoins(events, i, r) {
                let next = if access.address == r.end_addr {
                    BulkInitRange {
                        end_addr: (access.address + access.size) as RamAddress,
                        end_ind: i as TraceId,
                        ..r
                    }
                } else {
                    BulkInitRange { start_addr: access.address, end_ind: i as TraceId, ..r }
                };
                lemma_scanned_forward_writes(events, i + 1, end, next);
                lemma_nothing_written(events, r.end_ind + 1, i);
                assert(bytes_written(events, r.end_ind + 1, i + 1) == access.size);
                if let Some(after) = scanned_forward(events, i + 1, end, next) {
                    lemma_bytes_written(events, r.end_ind + 1, i + 1, after.end_ind + 1);
                    assert forall|k: int|
                        r.end_ind < k <= after.end_ind && #[trigger] is_write(
                            events,
                            k,
                        ) implies covers(after, events, k) by {
                        if k > i {
                        } else {
                            assert(k == i);
                        }
                    }
                }
            }
        } else {
            lemma_scanned_forward_writes(events, i + 1, end, r);
        }
    }
}

/// The consecutive writes around the latest write to a buffer: they stand in the window and hold
/// that write, they cover exactly as many addresses as bytes are written by them, and the next
/// write does not adjoin them. They are missing only where a write of the window ends beyond the
/// address space.
pub proof fn lemma_bulk_range_writes(
    t: TraceModel,
    address: RamAddress,
    start_ind: TraceId,
    end_ind: TraceId,
    latest: int,
)
    requires
        t.wf(),
        end_ind <= t.events.len(),
        last_access(t.events, 0, end_ind + 1, AccessType::Write, address as int, latest),
        start_ind <= latest < end_ind,
    ensures
        bulk_range(t, address, start_ind, end_ind) matches Some(r) ==> {
            &&& start_ind <= r.start_ind <= latest <= r.end_ind < end_ind
            &&& is_write(t.events, r.start_ind as int) && is_write(t.events, r.end_ind as int)
            &&& r.start_addr <= address < r.end_addr
            &&& r.end_addr - r.start_addr == bytes_written(
                t.events,
                r.start_ind as int,
                r.end_ind + 1,
            )
            &&& forall|k: int|
                r.start_ind <= k <= r.end_ind && #[trigger] is_write(t.events, k) ==> covers(
                    r,
                    t.events,
                    k,
                )
            &&& forall|k: int|
                r.end_ind < k < end_ind && #[trigger] is_write(t.events, k) && (forall|j: int|
                    r.end_ind < j < k ==> !#[trigger] is_write(t.events, j)) ==> !adjoins(
                    t.events,
                    k,
                    r,
                )
        },
        bulk_range(t, address, start_ind, end_ind) is None ==> exists|k: int|
            start_ind <= k < end_ind && #[trigger] is_write(t.events, k)
                && t.events[k].access().address + t.events[k].access().size > Address::MAX,
{
    lemma_latest_entry(t, AccessType::Write, address, end_ind as int);
    let ind = latest_until(seq_at(t.mem.writes, address), end_ind as int)->0.trace_ind;
    assert(ind == latest);
    assert(is_write(t.events, latest));
    let access = t.events[latest].access();
    if access.address + access.size <= Address::MAX {
        let single = single_write(t.events, ind);
        lemma_scanned_back_writes(t.events, start_ind as int, latest, single);
        if let Some(back) = scanned_back(t.events, start_ind as int, latest, single) {
            lemma_scanned_forward_writes(t.events, latest + 1, end_ind as int, back);
            if let Some(r) = scanned_forward(t.events, latest + 1, end_ind as int, back) {
                lemma_bytes_written(t.events, r.start_ind as int, latest, r.end_ind + 1);
                lemma_bytes_written(t.events, latest, latest + 1, r.end_ind + 1);
                lemma_nothing_written(t.events, latest, latest);
                assert(bytes_written(t.events, latest, latest + 1) == access.size);
                assert forall|k: int|
                    r.start_ind <= k <= r.end_ind && #[trigger] is_write(
                        t.events,
                        k,
                    ) implies covers(r, t.events, k) by {
                    if k < latest {
                        assert(covers(back, t.events, k));
                    }
                }
            }
        }
    }
}

/// `repetitions` values of `n` bytes, from the aligned address `addr` on, are all `value`, and are
/// enough for a pattern.
pub open spec fn repeats(
    m: HistoryModel,
    time: TimeRange,
    addr: int,
    end: int,
    n: int,
    value: nat,
    repetitions: int,
) -> bool {
    &&& n == 1 || n == 2 || n == 4
    &&& addr % n == 0
    &&& is_enough(repetitions, value as int, n)
    &&& forall|r: int|
        0 <= r < repetitions ==> addr + r * n < end && #[trigger] m.number_in(
            time,
            addr + r * n,
            n as nat,
        ) == Some(value)
}

/// A buffer whose start is written inside the window holds a pattern, where enough repetitions of a
/// value stand from its start on at the end of the window, and is in use otherwise. Either way the
/// latest read and the latest write of its first byte, up to the end of the window, are told. Such a
/// buffer has a state, wherever the bytes to be looked at and the writes of the window are in the
/// address space, and the window ends inside the trace and not with a write to the buffer.
pub proof fn lemma_initialized_events(
    t: TraceModel,
    address: RamAddress,
    start_ind: TraceId,
    end_ind: TraceId,
    max_num_inited: Address,
)
    requires
        t.wf(),
        start_ind < end_ind,
    ensures
        ({
            let time = TimeRange::between(start_ind, end_ind);
            let state = init_state(t, address, start_ind, end_ind, max_num_inited);
            let latest = |access_type: AccessType, ind: Option<TraceId>|
                match ind {
                    Some(i) => last_access(
                        t.events,
                        0,
                        end_ind + 1,
                        access_type,
                        address as int,
                        i as int,
                    ),
                    None => !accessed(t.events, 0, end_ind + 1, access_type, address as int),
                };
            &&& (state matches Some(
                InitializationState::Pattern {
                    latest_read_ind,
                    latest_write_ind,
                    at_config,
                    at_bulk_init,
                },
            ) ==> {
                &&& latest(AccessType::Read, latest_read_ind)
                &&& latest(AccessType::Write, latest_write_ind)
                &&& latest_write_ind is Some && start_ind <= latest_write_ind->0 < end_ind
                &&& at_config.repetitions_before == 0
                &&& repeats(
                    t.mem,
                    time,
                    address as int,
                    address + 0x800,
                    at_config.pattern_len as int,
                    at_config.value as nat,
                    at_config.repetitions as int,
                )
                &&& address + at_config.repetitions * at_config.pattern_len < address + 0x800
                    ==> t.mem.number_in(
                    time,
                    address + at_config.repetitions * at_config.pattern_len,
                    at_config.pattern_len as nat,
                ) != Some(at_config.value as nat)
            })
            &&& (state matches Some(
                InitializationState::Used { latest_read_ind, latest_write_ind },
            ) ==> {
                &&& latest(AccessType::Read, latest_read_ind)
                &&& latest(AccessType::Write, latest_write_ind)
                &&& latest_write_ind is Some && start_ind <= latest_write_ind->0 < end_ind
                &&& forall|n: int, value: nat, repetitions: int|
                    !#[trigger] repeats(
                        t.mem,
                        time,
                        address as int,
                        address + 0x800,
                        n,
                        value,
                        repetitions,
                    )
            })
            &&& accessed(
                t.events,
                start_ind + 1,
                end_ind as int,
                AccessType::Write,
                address as int,
            ) && !accesses(t.events, end_ind as int, AccessType::Write, address as int) && address
                + 0x800 <= Address::MAX && end_ind <= t.events.len() && (forall|k: int|
                start_ind <= k < end_ind && #[trigger] is_write(t.events, k)
                    ==> t.events[k].access().address + t.events[k].access().size <= Address::MAX)
                ==> state is Some && (state->0 is Pattern || state->0 is Used)
        }),
{
    let time = TimeRange::between(start_ind, end_ind);
    let state = init_state(t, address, start_ind, end_ind, max_num_inited);
    lemma_write_inside(t, address, start_ind as int, end_ind as int);
    lemma_latest_entry(t, AccessType::Read, address, end_ind as int);
    lemma_latest_entry(t, AccessType::Write, address, end_ind as int);
    if accessed(t.events, start_ind + 1, end_ind as int, AccessType::Write, address as int)
        && address + 0x800 <= Address::MAX {
        if latest_until(seq_at(t.mem.writes, address), end_ind as int) is Some {
            let w = latest_until(seq_at(t.mem.writes, address), end_ind as int)->0.trace_ind;
            if start_ind <= w < end_ind && end_ind <= t.events.len() {
                lemma_bulk_range_writes(t, address, start_ind, end_ind, w as int);
            }
        }
        let end = address + 0x800;
        lemma_pattern_repeats(t.mem, time, address as int, end, 0);
        lemma_pattern_bound(t.mem, time, address as int, end, 0);
        if state is Some && state->0 is Used {
            assert forall|n: int, value: nat, repetitions: int|
                !#[trigger] repeats(t.mem, time, address as int, end, n, value, repetitions) by {
                if repeats(t.mem, time, address as int, end, n, value, repetitions) {
                    lemma_repeats_make_pattern(
                        t.mem,
                        time,
                        address as int,
                        end,
                        0,
                        n,
                        value,
                        repetitions,
                    );
                }
            }
        }
    }
}

/// The pattern that a buffer got when it was initialised is one of the bytes that the consecutive
/// writes around its latest write left, in the range that these cover: it holds the buffer's first
/// byte, its repetitions go on from there to the end of the range or to another value, and back to
/// the start of the range or to another value. There is one wherever there are enough repetitions.
pub proof fn lemma_bulk_init_events(
    t: TraceModel,
    address: RamAddress,
    start_ind: TraceId,
    end_ind: TraceId,
    max_num_inited: Address,
)
    requires
        t.wf(),
        start_ind < end_ind,
    ensures
        init_state(t, address, start_ind, end_ind, max_num_inited) matches Some(
            InitializationState::Pattern { at_bulk_init, .. },
        ) ==> {
            let r = bulk_range(t, address, start_ind, end_ind)->0;
            let written = TimeRange::through(r.start_ind, r.end_ind);
            &&& bulk_range(t, address, start_ind, end_ind) is Some
            &&& match at_bulk_init {
                Some(pattern) => {
                    let n = pattern.pattern_len as int;
                    let value = Some(pattern.value as nat);
                    &&& (n == 1 || n == 2 || n == 4) && address as int % n == 0
                    &&& is_enough(
                        pattern.repetitions + pattern.repetitions_before,
                        pattern.value as int,
                        n,
                    )
                    &&& forall|k: int|
                        0 <= k < pattern.repetitions ==> address + k * n < r.end_addr
                            && #[trigger] t.mem.number_in(written, address + k * n, n as nat)
                            == value
                    &&& address + pattern.repetitions * n < r.end_addr ==> t.mem.number_in(
                        written,
                        address + pattern.repetitions * n,
                        n as nat,
                    ) != value
                    &&& (address - r.start_addr) % n == 0 ==> {
                        &&& forall|k: int|
                            1 <= k <= pattern.repetitions_before ==> r.start_addr <= address - k * n
                                && #[trigger] t.mem.number_in(written, address - k * n, n as nat)
                                == value
                        &&& r.start_addr <= address - (pattern.repetitions_before + 1) * n
                            ==> t.mem.number_in(
                            written,
                            address - (pattern.repetitions_before + 1) * n,
                            n as nat,
                        ) != value
                    }
                },
                None => forall|n: int, value: nat, repetitions: int|
                    r.start_addr + n <= r.end_addr ==> !#[trigger] repeats(
                        t.mem,
                        written,
                        address as int,
                        r.end_addr as int,
                        n,
                        value,
                        repetitions,
                    ),
            }
        },
{
    let state = init_state(t, address, start_ind, end_ind, max_num_inited);
    lemma_write_inside(t, address, start_ind as int, end_ind as int);
    if state is Some && state->0 is Pattern {
        let r = bulk_range(t, address, start_ind, end_ind)->0;
        let written = TimeRange::through(r.start_ind, r.end_ind);
        lemma_latest_entry(t, AccessType::Write, address, end_ind as int);
        let w = latest_until(seq_at(t.mem.writes, address), end_ind as int)->0.trace_ind;
        lemma_bulk_range_writes(t, address, start_ind, end_ind, w as int);
        let start = r.start_addr as int;
        let end = r.end_addr as int;
        lemma_pattern_repeats(t.mem, written, start, end, address - start);
        if state->0->Pattern_at_bulk_init is None {
            assert forall|n: int, value: nat, repetitions: int|
                r.start_addr + n <= r.end_addr implies !#[trigger] repeats(
                t.mem,
                written,
                address as int,
                end,
                n,
                value,
                repetitions,
            ) by {
                if repeats(t.mem, written, address as int, end, n, value, repetitions) {
                    lemma_repeats_make_pattern(
                        t.mem,
                        written,
                        start,
                        end,
                        address - start,
                        n,
                        value,
                        repetitions,
                    );
                }
            }
        }
    }
}

} // verus!
