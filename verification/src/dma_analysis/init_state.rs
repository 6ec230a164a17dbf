//! How the memory behind a pointer was initialised.

use super::trace_info::{entry_from, in_address_space, lemma_ram_history, TraceInfo, TraceModel};
use super::types::{is_pattern, makes_pattern, InitPattern, InitializationState};
use crate::common::{Address, RamAddress, TraceId};
use crate::hoedur::bintrace::{Access, AccessType, TraceEvent};
use crate::mem_view::{
    latest_until, next_between, until, HistoryEntry, HistoryModel, LeNumber, MemoryView, TimeRange,
};
use crate::scan::{first_from, last_before, lemma_last_before};
use crate::tables::seq_at;
use vstd::prelude::*;

verus! {

/// How far memory is searched for a pattern.
pub const MAX_INIT_PATTERN_SCAN_LEN: u32 = 0x800;

/// Consecutive writes: the addresses that they cover, and the trace positions of the first and the
/// last of them.
#[derive(Debug, Clone, Copy, PartialEq, Eq, Structural)]
pub struct BulkInitRange {
    pub start_addr: RamAddress,
    pub end_addr: RamAddress,
    pub start_ind: TraceId,
    pub end_ind: TraceId,
}

/// The last of the addresses `start`, `start + n`, and so on, that lies below `addr`; below `start`
/// where there is none.
pub open spec fn last_step(start: int, addr: int, n: int) -> int {
    if addr <= start {
        start - 1
    } else {
        addr - 1 - (addr - 1 - start) % n
    }
}

/// The repetitions of a value of `n` bytes from `addr` on, before `end`: the steps of `n` bytes that
/// can be made before another value is met.
pub open spec fn repetitions_after(
    m: HistoryModel,
    time: TimeRange,
    n: int,
    value: nat,
    addr: int,
    end: int,
) -> int
    decreases end - addr + n,
{
    if addr >= end || n <= 0 || m.number_in(time, addr, n as nat) != Some(value) {
        0
    } else {
        1 + repetitions_after(m, time, n, value, addr + n, end)
    }
}

/// The repetitions of a value of `n` bytes at `a` and below it, down to `start`.
pub open spec fn repetitions_down(
    m: HistoryModel,
    time: TimeRange,
    n: int,
    value: nat,
    start: int,
    a: int,
) -> int
    decreases a - start + n,
{
    if a < start || n <= 0 || m.number_in(time, a, n as nat) != Some(value) {
        0
    } else {
        1 + repetitions_down(m, time, n, value, start, a - n)
    }
}

/// The repetitions of a value of `n` bytes in front of `addr`, down to `start`.
pub open spec fn repetitions_before(
    m: HistoryModel,
    time: TimeRange,
    n: int,
    value: nat,
    start: int,
    addr: int,
) -> int {
    repetitions_down(m, time, n, value, start, last_step(start, addr, n))
}

/// The pattern of `n`-byte values around `start + offset`, inside the addresses from `start` on,
/// before `end`.
pub open spec fn pattern_of_width(
    m: HistoryModel,
    time: TimeRange,
    start: int,
    end: int,
    offset: int,
    n: int,
) -> Option<InitPattern> {
    let addr = start + offset;
    if start + n > end || addr % n != 0 {
        None
    } else {
        match m.number_in(time, addr, n as nat) {
            Some(value) => {
                let after = repetitions_after(m, time, n, value, addr, end);
                let before = repetitions_before(m, time, n, value, start, addr);
                if makes_pattern(before + after, value as u64, n) {
                    Some(
                        InitPattern {
                            value: value as u64,
                            pattern_len: n as usize,
                            repetitions: after as usize,
                            repetitions_before: before as usize,
                        },
                    )
                } else {
                    None
                }
            },
            None => None,
        }
    }
}

/// The pattern of the narrowest values.
pub open spec fn pattern_in(
    m: HistoryModel,
    time: TimeRange,
    start: int,
    end: int,
    offset: int,
) -> Option<InitPattern> {
    if start == end {
        None
    } else if pattern_of_width(m, time, start, end, offset, 1) is Some {
        pattern_of_width(m, time, start, end, offset, 1)
    } else if pattern_of_width(m, time, start, end, offset, 2) is Some {
        pattern_of_width(m, time, start, end, offset, 2)
    } else {
        pattern_of_width(m, time, start, end, offset, 4)
    }
}

/// The repetitions from an address on fit into the bytes that are looked at; the last one may reach
/// beyond them.
proof fn lemma_after_bound(
    m: HistoryModel,
    time: TimeRange,
    n: int,
    value: nat,
    a: int,
    end: int,
)
    requires
        n == 1 || n == 2 || n == 4,
        a <= end,
    ensures
        0 <= repetitions_after(m, time, n, value, a, end) <= end - a,
        n * repetitions_after(m, time, n, value, a, end) < end - a + n,
    decreases end - a + n,
{
    let more = repetitions_after(m, time, n, value, a + n, end);
    if a + n <= end {
        lemma_after_bound(m, time, n, value, a + n, end);
    } else {
        assert(more == 0);
    }
    assert(n * (1 + more) == n + n * more) by (nonlinear_arith);
}

/// The repetitions from an address down fit into the bytes that are looked at.
proof fn lemma_down_bound(
    m: HistoryModel,
    time: TimeRange,
    n: int,
    value: nat,
    start: int,
    a: int,
)
    requires
        n == 1 || n == 2 || n == 4,
        start - n <= a,
    ensures
        0 <= repetitions_down(m, time, n, value, start, a),
        n * repetitions_down(m, time, n, value, start, a) <= a - start + n,
        a >= start - 1 ==> repetitions_down(m, time, n, value, start, a) <= a - start + 1,
    decreases a - start + n,
{
    if a >= start {
        lemma_down_bound(m, time, n, value, start, a - n);
    }
}

/// The repetitions of a pattern on either side of an address fit into the bytes that are looked at
/// there; the last one on each side may reach beyond them.
pub proof fn lemma_pattern_bound(
    m: HistoryModel,
    time: TimeRange,
    start: int,
    end: int,
    offset: int,
)
    requires
        0 <= start <= end <= Address::MAX,
        0 <= offset <= end - start,
    ensures
        pattern_in(m, time, start, end, offset) matches Some(pattern) ==> {
            &&& pattern.repetitions_before <= offset
            &&& pattern.pattern_len * pattern.repetitions_before < offset + pattern.pattern_len
            &&& pattern.repetitions <= end - start - offset
            &&& pattern.pattern_len * pattern.repetitions < end - start - offset
                + pattern.pattern_len
            &&& pattern.pattern_len == 1 || pattern.pattern_len == 2 || pattern.pattern_len == 4
        },
{
    lemma_width_bound(m, time, start, end, offset, 1);
    lemma_width_bound(m, time, start, end, offset, 2);
    lemma_width_bound(m, time, start, end, offset, 4);
}

proof fn lemma_width_bound(
    m: HistoryModel,
    time: TimeRange,
    start: int,
    end: int,
    offset: int,
    n: int,
)
    requires
        0 <= start <= end <= Address::MAX,
        0 <= offset <= end - start,
        n == 1 || n == 2 || n == 4,
    ensures
        pattern_of_width(m, time, start, end, offset, n) matches Some(pattern) ==> {
            &&& pattern.repetitions_before <= offset
            &&& n * pattern.repetitions_before < offset + n
            &&& pattern.repetitions <= end - start - offset
            &&& n * pattern.repetitions < end - start - offset + n
            &&& pattern.pattern_len == n
        },
{
    let addr = start + offset;
    if let Some(value) = m.number_in(time, addr, n as nat) {
        lemma_after_bound(m, time, n, value, addr, end);
        if addr > start {
            vstd::arithmetic::div_mod::lemma_mod_pos_bound(addr - 1 - start, n);
        }
        lemma_down_bound(m, time, n, value, start, last_step(start, addr, n));
    }
}

proof fn lemma_width_steps(n: int, a: int)
    requires
        n == 1 || n == 2 || n == 4,
        a % n == 0,
    ensures
        (a + n) % n == 0,
        a < 0x1_0000_0000 ==> a + n <= 0x1_0000_0000,
{
}

/// Looks for a pattern of values of one width.
fn find_pattern_ux<V: LeNumber>(
    mem_view: &MemoryView<'_>,
    start: Address,
    end: Address,
    offset: Address,
) -> (res: Option<InitPattern>)
    requires
        start <= end,
        offset <= end - start,
        mem_view.memory@.ordered(),
    ensures
        res == pattern_of_width(
            mem_view.memory@,
            mem_view.time,
            start as int,
            end as int,
            offset as int,
            V::width() as int,
        ),
{
    let n = V::byte_count() as u64;
    let ghost m = mem_view.memory@;
    let ghost time = mem_view.time;
    if start as u64 + n > end as u64 {
        return None;
    }
    let addr = start + offset;
    if addr as u64 % n != 0 {
        return None;
    }
    proof {
        lemma_width_steps(n as int, addr as int);
    }
    let value = match mem_view.read::<V>(addr) {
        Some(value) => value,
        None => {
            return None;
        },
    };
    let number = value.to_u64();
    let after = count_after::<V>(mem_view, number, addr, end);
    let before = count_before::<V>(mem_view, number, start, addr);
    proof {
        lemma_after_bound(m, time, n as int, number as nat, addr as int, end as int);
        if addr > start {
            vstd::arithmetic::div_mod::lemma_mod_pos_bound(addr - 1 - start, n as int);
        }
        lemma_down_bound(
            m,
            time,
            n as int,
            number as nat,
            start as int,
            last_step(start as int, addr as int, n as int),
        );
    }
    if is_pattern(before, after, number, n as usize) {
        Some(
            InitPattern {
                value: number,
                pattern_len: n as usize,
                repetitions: after,
                repetitions_before: before,
            },
        )
    } else {
        None
    }
}

/// Counts the repetitions of a value from `addr` on.
fn count_after<V: LeNumber>(
    mem_view: &MemoryView<'_>,
    number: u64,
    addr: Address,
    end: Address,
) -> (res: usize)
    requires
        addr <= end,
        addr as int % V::width() as int == 0,
        mem_view.memory@.ordered(),
    ensures
        res == repetitions_after(
            mem_view.memory@,
            mem_view.time,
            V::width() as int,
            number as nat,
            addr as int,
            end as int,
        ),
{
    let n = V::byte_count() as u64;
    let ghost m = mem_view.memory@;
    let ghost time = mem_view.time;
    let mut cursor: u64 = addr as u64;
    let mut count: usize = 0;
    while cursor < end as u64
        invariant
            n == 1 || n == 2 || n == 4,
            n == V::width(),
            addr <= cursor,
            count <= cursor - addr,
            cursor <= 0x1_0000_0000,
            cursor as int % n as int == 0,
            m == mem_view.memory@,
            time == mem_view.time,
            m.ordered(),
            repetitions_after(m, time, n as int, number as nat, addr as int, end as int) == count
                + repetitions_after(
                m,
                time,
                n as int,
                number as nat,
                cursor as int,
                end as int,
            ),
        decreases 0x1_0000_0000 - cursor,
    {
        proof {
            lemma_width_steps(n as int, cursor as int);
        }
        let same = match mem_view.read::<V>(cursor as Address) {
            Some(other) => other.to_u64() == number,
            None => false,
        };
        if !same {
            return count;
        }
        cursor += n;
        count += 1;
    }
    count
}

/// Counts the repetitions of a value in front of `addr`.
fn count_before<V: LeNumber>(
    mem_view: &MemoryView<'_>,
    number: u64,
    start: Address,
    addr: Address,
) -> (res: usize)
    requires
        start <= addr,
        addr as int % V::width() as int == 0,
        mem_view.memory@.ordered(),
    ensures
        res == repetitions_before(
            mem_view.memory@,
            mem_view.time,
            V::width() as int,
            number as nat,
            start as int,
            addr as int,
        ),
{
    let n = V::byte_count() as u64;
    let ghost m = mem_view.memory@;
    let ghost time = mem_view.time;
    if addr == start {
        return 0;
    }
    let span = (addr - 1 - start) as u64;
    proof {
        vstd::arithmetic::div_mod::lemma_mod_pos_bound(addr - 1 - start, n as int);
        lemma_width_steps(n as int, addr as int);
    }
    let mut cursor: i64 = (addr as u64 - 1 - span % n) as i64;
    let mut count: usize = 0;
    while cursor >= start as i64
        invariant
            n == 1 || n == 2 || n == 4,
            n == V::width(),
            addr + n <= 0x1_0000_0000,
            start <= addr,
            start - n <= cursor < addr,
            count <= addr - 1 - cursor,
            m == mem_view.memory@,
            time == mem_view.time,
            m.ordered(),
            repetitions_down(
                m,
                time,
                n as int,
                number as nat,
                start as int,
                last_step(start as int, addr as int, n as int),
            ) == count + repetitions_down(
                m,
                time,
                n as int,
                number as nat,
                start as int,
                cursor as int,
            ),
        decreases cursor + 8,
    {
        let same = match mem_view.read::<V>(cursor as Address) {
            Some(other) => other.to_u64() == number,
            None => false,
        };
        if !same {
            return count;
        }
        cursor -= n as i64;
        count += 1;
    }
    count
}

/// Looks for a pattern around `start + offset`, of the narrowest values first.
pub fn find_pattern(
    mem_view: &MemoryView<'_>,
    start: Address,
    end: Address,
    offset: Address,
) -> (res: Option<InitPattern>)
    requires
        start <= end,
        offset <= end - start,
        mem_view.memory@.ordered(),
    ensures
        res == pattern_in(
            mem_view.memory@,
            mem_view.time,
            start as int,
            end as int,
            offset as int,
        ),
{
    if start == end {
        return None;
    }
    let res = find_pattern_ux::<u8>(mem_view, start, end, offset);
    if res.is_some() {
        return res;
    }
    let res = find_pattern_ux::<u16>(mem_view, start, end, offset);
    if res.is_some() {
        return res;
    }
    find_pattern_ux::<u32>(mem_view, start, end, offset)
}

/// What a further write means for consecutive writes.
pub enum Carry {
    /// It carries them on.
    On(BulkInitRange),
    /// It has nothing to do with them.
    Apart,
    /// It ends beyond the address space.
    OutOfReach,
}

/// What `access` means for the consecutive writes: whether it carries on at their upper or lower
/// end.
pub open spec fn carried(r: BulkInitRange, access: Access) -> Carry {
    if access.address + access.size > Address::MAX {
        Carry::OutOfReach
    } else if access.address == r.end_addr {
        Carry::On(BulkInitRange { end_addr: (access.address + access.size) as RamAddress, ..r })
    } else if access.address + access.size == r.start_addr {
        Carry::On(BulkInitRange { start_addr: access.address, ..r })
    } else {
        Carry::Apart
    }
}

/// The consecutive writes, carried on backwards from position `i` to position `start`, up to the
/// first write that does not carry them on. None where one of these writes ends beyond the address
/// space.
pub open spec fn scanned_back(
    events: Seq<TraceEvent>,
    start: int,
    i: int,
    r: BulkInitRange,
) -> Option<BulkInitRange>
    decreases i - start,
{
    if i <= start {
        Some(r)
    } else {
        let access = events[i - 1].access();
        if access.access_type is Write {
            match carried(r, access) {
                Carry::On(r) => scanned_back(
                    events,
                    start,
                    i - 1,
                    BulkInitRange { start_ind: (i - 1) as TraceId, ..r },
                ),
                Carry::Apart => Some(r),
                Carry::OutOfReach => None,
            }
        } else {
            scanned_back(events, start, i - 1, r)
        }
    }
}

/// The consecutive writes, carried on from position `i` on, before position `end`, up to the first
/// write that does not carry them on. None where one of these writes ends beyond the address space.
pub open spec fn scanned_forward(
    events: Seq<TraceEvent>,
    i: int,
    end: int,
    r: BulkInitRange,
) -> Option<BulkInitRange>
    decreases end - i,
{
    if i >= end {
        Some(r)
    } else {
        let access = events[i].access();
        if access.access_type is Write {
            match carried(r, access) {
                Carry::On(r) => scanned_forward(
                    events,
                    i + 1,
                    end,
                    BulkInitRange { end_ind: i as TraceId, ..r },
                ),
                Carry::Apart => Some(r),
                Carry::OutOfReach => None,
            }
        } else {
            scanned_forward(events, i + 1, end, r)
        }
    }
}

/// The write at a trace position, as a range of its own.
pub open spec fn single_write(events: Seq<TraceEvent>, ind: TraceId) -> BulkInitRange {
    let access = events[ind as int].access();
    BulkInitRange {
        start_addr: access.address,
        end_addr: (access.address + access.size) as RamAddress,
        start_ind: ind,
        end_ind: ind,
    }
}

/// The consecutive writes around the latest write to `address` up to `end_ind`. None where one of
/// them ends beyond the address space.
pub open spec fn bulk_range(
    t: TraceModel,
    address: RamAddress,
    start_ind: TraceId,
    end_ind: TraceId,
) -> Option<BulkInitRange> {
    let ind = latest_until(seq_at(t.mem.writes, address), end_ind as int)->0.trace_ind;
    let latest = t.events[ind as int].access();
    if latest.address + latest.size > Address::MAX {
        None
    } else {
        match scanned_back(
            t.events,
            start_ind as int,
            ind as int,
            single_write(t.events, ind),
        ) {
            Some(r) => scanned_forward(t.events, ind + 1, end_ind as int, r),
            None => None,
        }
    }
}

/// The range does not shrink.
pub open spec fn widens(before: BulkInitRange, after: BulkInitRange) -> bool {
    &&& after.start_addr <= before.start_addr
    &&& before.end_addr <= after.end_addr
}

proof fn lemma_scanned_back(events: Seq<TraceEvent>, start: int, i: int, r: BulkInitRange)
    ensures
        scanned_back(events, start, i, r) matches Some(after) ==> widens(r, after),
    decreases i - start,
{
    if i > start {
        let access = events[i - 1].access();
        if access.access_type is Write {
            match carried(r, access) {
                Carry::On(r) => lemma_scanned_back(
                    events,
                    start,
                    i - 1,
                    BulkInitRange { start_ind: (i - 1) as TraceId, ..r },
                ),
                _ => {},
            }
        } else {
            lemma_scanned_back(events, start, i - 1, r);
        }
    }
}

proof fn lemma_scanned_forward(events: Seq<TraceEvent>, i: int, end: int, r: BulkInitRange)
    ensures
        scanned_forward(events, i, end, r) matches Some(after) ==> widens(r, after),
    decreases end - i,
{
    if i < end {
        let access = events[i].access();
        if access.access_type is Write {
            match carried(r, access) {
                Carry::On(r) => lemma_scanned_forward(
                    events,
                    i + 1,
                    end,
                    BulkInitRange { end_ind: i as TraceId, ..r },
                ),
                _ => {},
            }
        } else {
            lemma_scanned_forward(events, i + 1, end, r);
        }
    }
}

/// The latest write to `address` up to `end_ind` lies in the window.
pub open spec fn latest_write_in_window(
    t: TraceModel,
    address: RamAddress,
    start_ind: TraceId,
    end_ind: TraceId,
) -> bool {
    &&& latest_until(seq_at(t.mem.writes, address), end_ind as int) matches Some(latest)
        && start_ind <= latest.trace_ind < end_ind
    &&& end_ind <= t.events.len()
}

/// The consecutive writes around the latest write to an address cover that address.
pub proof fn lemma_bulk_range_covers(
    t: TraceModel,
    address: RamAddress,
    start_ind: TraceId,
    end_ind: TraceId,
)
    requires
        t.wf(),
        latest_write_in_window(t, address, start_ind, end_ind),
    ensures
        bulk_range(t, address, start_ind, end_ind) matches Some(r) ==> r.start_addr <= address
            < r.end_addr,
{
    lemma_ram_history(t.events);
    let h = seq_at(t.mem.writes, address);
    lemma_last_before(h.len() as int, until(h, end_ind as int));
    let i = last_before(h.len() as int, until(h, end_ind as int))->0;
    let ind = h[i].trace_ind;
    assert(entry_from(h[i], address, t.events, AccessType::Write));
    assert(in_address_space(t.events[ind as int].access()));
    let r0 = single_write(t.events, ind);
    lemma_scanned_back(t.events, start_ind as int, ind as int, r0);
    if let Some(r) = scanned_back(t.events, start_ind as int, ind as int, r0) {
        lemma_scanned_forward(t.events, ind + 1, end_ind as int, r);
    }
}

/// What `access` means for the consecutive writes.
fn carry_on(r: &BulkInitRange, access: &Access) -> (res: Carry)
    ensures
        res == carried(*r, *access),
{
    if access.size as u32 > Address::MAX - access.address {
        return Carry::OutOfReach;
    }
    let end = access.address + access.size as u32;
    if access.address == r.end_addr {
        Carry::On(BulkInitRange { end_addr: end, ..*r })
    } else if end == r.start_addr {
        Carry::On(BulkInitRange { start_addr: access.address, ..*r })
    } else {
        Carry::Apart
    }
}

/// Finds the consecutive writes around the latest write to `address`: whether an initialisation of
/// a larger buffer, which the address is a part of, has taken place.
fn find_bulk_init_range(
    tinfo: &TraceInfo,
    address: u32,
    start_ind: TraceId,
    end_ind: TraceId,
) -> (res: Option<BulkInitRange>)
    requires
        tinfo.wf(),
        latest_write_in_window(tinfo@, address, start_ind, end_ind),
    ensures
        res == bulk_range(tinfo@, address, start_ind, end_ind),
{
    let ghost events = tinfo.trace.events@;
    let latest_ind = tinfo.mem.latest_write_at(address, end_ind).unwrap().trace_ind;
    let TraceEvent::Access(latest_write) = tinfo.trace.events[latest_ind as usize];
    if latest_write.size as u32 > Address::MAX - latest_write.address {
        return None;
    }
    let mut range = BulkInitRange {
        start_addr: latest_write.address,
        end_addr: latest_write.address + latest_write.size as u32,
        start_ind: latest_ind,
        end_ind: latest_ind,
    };
    let mut i: TraceId = latest_ind;
    let mut scanning = true;
    let ghost back = scanned_back(events, start_ind as int, latest_ind as int, range);
    let ghost whole = bulk_range(tinfo@, address, start_ind, end_ind);
    while i > start_ind && scanning
        invariant
            events == tinfo.trace.events@,
            start_ind <= i <= latest_ind < events.len(),
            back is None ==> whole is None,
            whole == bulk_range(tinfo@, address, start_ind, end_ind),
            scanning ==> back == scanned_back(events, start_ind as int, i as int, range),
            !scanning ==> back == Some(range),
        decreases i, scanning as int,
    {
        let TraceEvent::Access(access) = tinfo.trace.events[(i - 1) as usize];
        if matches!(access.access_type, AccessType::Write) {
            match carry_on(&range, &access) {
                Carry::On(wider) => {
                    range = BulkInitRange { start_ind: i - 1, ..wider };
                    i -= 1;
                },
                Carry::Apart => {
                    scanning = false;
                },
                Carry::OutOfReach => {
                    return None;
                },
            }
        } else {
            i -= 1;
        }
    }
    let mut i: TraceId = latest_ind + 1;
    let mut scanning = true;
    while i < end_ind && scanning
        invariant
            events == tinfo.trace.events@,
            latest_ind < i <= end_ind <= events.len(),
            whole == bulk_range(tinfo@, address, start_ind, end_ind),
            scanning ==> whole == scanned_forward(events, i as int, end_ind as int, range),
            !scanning ==> whole == Some(range),
        decreases end_ind - i, scanning as int,
    {
        let TraceEvent::Access(access) = tinfo.trace.events[i as usize];
        if matches!(access.access_type, AccessType::Write) {
            match carry_on(&range, &access) {
                Carry::On(wider) => {
                    range = BulkInitRange { end_ind: i, ..wider };
                    i += 1;
                },
                Carry::Apart => {
                    scanning = false;
                },
                Carry::OutOfReach => {
                    return None;
                },
            }
        } else {
            i += 1;
        }
    }
    Some(range)
}

/// The bytes from `base` on that are there in the view of `time`.
pub open spec fn present_from(m: HistoryModel, time: TimeRange, base: int) -> spec_fn(int) -> bool {
    |k: int| m.byte_in(time, base + k) is Some
}

/// The bytes below `base`, downwards, that are there in the view of `time`.
pub open spec fn present_below(m: HistoryModel, time: TimeRange, base: int) -> spec_fn(
    int,
) -> bool {
    |k: int| m.byte_in(time, base - 1 - k) is Some
}

/// The position of the first hit among `n`, and `n` where there is none.
pub open spec fn first_or(n: int, p: spec_fn(int) -> bool) -> int {
    match first_from(0, n, p) {
        Some(k) => k,
        None => n,
    }
}

/// The trace position of an entry that may be absent.
pub open spec fn ind_of(entry: Option<HistoryEntry>) -> Option<TraceId> {
    match entry {
        Some(entry) => Some(entry.trace_ind),
        None => None,
    }
}

/// How the memory at `address` was initialised between the two trace positions.
///
/// Without a write to `address` inside the window, it is uninitialised, and the bytes without a
/// write on either side are counted, up to `max_num_inited`. With one, it holds a pattern or is in
/// use. None where the bytes to be looked at are not all in the address space, where the window
/// ends beyond the trace or with a write to `address`, and where the only write to `address` stands
/// at the very start of the window.
pub open spec fn init_state(
    t: TraceModel,
    address: RamAddress,
    start_ind: TraceId,
    end_ind: TraceId,
    max_num_inited: Address,
) -> Option<InitializationState> {
    let writes = seq_at(t.mem.writes, address);
    let time = TimeRange::between(start_ind, end_ind);
    if next_between(writes, start_ind as int, end_ind as int) is None {
        let len = first_or(max_num_inited as int, present_from(t.mem, time, address as int));
        let len_before = first_or(
            max_num_inited as int,
            present_below(t.mem, time, address as int),
        );
        if max_num_inited > address || address + max_num_inited > Address::MAX || len == 0 {
            None
        } else {
            Some(
                InitializationState::Uninitialized {
                    len: len as usize,
                    len_before: len_before as usize,
                },
            )
        }
    } else if address + MAX_INIT_PATTERN_SCAN_LEN > Address::MAX || !latest_write_in_window(
        t,
        address,
        start_ind,
        end_ind,
    ) || bulk_range(t, address, start_ind, end_ind) is None {
        None
    } else {
        let range = bulk_range(t, address, start_ind, end_ind)->0;
        let at_bulk_init = pattern_in(
            t.mem,
            TimeRange::through(range.start_ind, range.end_ind),
            range.start_addr as int,
            range.end_addr as int,
            address - range.start_addr,
        );
        let latest_read_ind = ind_of(latest_until(seq_at(t.mem.reads, address), end_ind as int));
        let latest_write_ind = ind_of(latest_until(writes, end_ind as int));
        match pattern_in(
            t.mem,
            time,
            address as int,
            address + MAX_INIT_PATTERN_SCAN_LEN,
            0,
        ) {
            Some(at_config) => Some(
                InitializationState::Pattern {
                    latest_read_ind,
                    latest_write_ind,
                    at_config,
                    at_bulk_init,
                },
            ),
            None => Some(InitializationState::Used { latest_read_ind, latest_write_ind }),
        }
    }
}

/// Counts the bytes from `address` on without a write.
fn count_absent_from(mem_view: &MemoryView<'_>, address: Address, max: Address) -> (res: Address)
    requires
        address + max <= Address::MAX,
        mem_view.memory@.ordered(),
    ensures
        res == first_or(
            max as int,
            present_from(mem_view.memory@, mem_view.time, address as int),
        ),
{
    let mut k: Address = 0;
    let ghost p = present_from(mem_view.memory@, mem_view.time, address as int);
    while k < max
        invariant
            k <= max,
            address + max <= Address::MAX,
            mem_view.memory@.ordered(),
            p == present_from(mem_view.memory@, mem_view.time, address as int),
            first_from(0, max as int, p) == first_from(k as int, max as int, p),
        decreases max - k,
    {
        if mem_view.is_initialized(address + k) {
            return k;
        }
        k += 1;
    }
    max
}

/// Counts the bytes below `address`, downwards, without a write.
fn count_absent_below(mem_view: &MemoryView<'_>, address: Address, max: Address) -> (res: Address)
    requires
        max <= address,
        mem_view.memory@.ordered(),
    ensures
        res == first_or(
            max as int,
            present_below(mem_view.memory@, mem_view.time, address as int),
        ),
{
    let mut k: Address = 0;
    let ghost p = present_below(mem_view.memory@, mem_view.time, address as int);
    while k < max
        invariant
            k <= max,
            max <= address,
            mem_view.memory@.ordered(),
            p == present_below(mem_view.memory@, mem_view.time, address as int),
            first_from(0, max as int, p) == first_from(k as int, max as int, p),
        decreases max - k,
    {
        if mem_view.is_initialized(address - 1 - k) {
            return k;
        }
        k += 1;
    }
    max
}

/// Finds out how the memory at `address` was initialised between the two trace positions.
pub fn get_initialization_state(
    tinfo: &TraceInfo,
    address: u32,
    start_ind: TraceId,
    end_ind: TraceId,
    max_num_inited: Address,
) -> (res: Option<InitializationState>)
    requires
        tinfo.wf(),
    ensures
        res == init_state(tinfo@, address, start_ind, end_ind, max_num_inited),
{
    proof {
        lemma_ram_history(tinfo.trace.events@);
    }
    let mem_view = tinfo.mem.mem_view_at(TimeRange::between(start_ind, end_ind));
    if tinfo.mem.get_u8_between(address, start_ind, end_ind).is_none() {
        if max_num_inited > address || max_num_inited > Address::MAX - address {
            return None;
        }
        let len = count_absent_from(&mem_view, address, max_num_inited);
        let len_before = count_absent_below(&mem_view, address, max_num_inited);
        if len == 0 {
            return None;
        }
        return Some(
            InitializationState::Uninitialized {
                len: len as usize,
                len_before: len_before as usize,
            },
        );
    }
    if MAX_INIT_PATTERN_SCAN_LEN > Address::MAX - address {
        return None;
    }
    let latest_write_ind = match tinfo.mem.latest_write_at(address, end_ind) {
        Some(entry) => entry.trace_ind,
        None => {
            return None;
        },
    };
    if latest_write_ind < start_ind || latest_write_ind >= end_ind || end_ind as usize
        > tinfo.trace.events.len() {
        return None;
    }
    let init_range = match find_bulk_init_range(tinfo, address, start_ind, end_ind) {
        Some(range) => range,
        None => {
            return None;
        },
    };
    proof {
        lemma_bulk_range_covers(tinfo@, address, start_ind, end_ind);
    }
    let buf_bulk_init = tinfo.mem.mem_view_at(
        TimeRange::through(init_range.start_ind, init_range.end_ind),
    );
    let latest_read_ind = match tinfo.mem.latest_read_at(address, end_ind) {
        Some(entry) => Some(entry.trace_ind),
        None => None,
    };
    let at_bulk_init = find_pattern(
        &buf_bulk_init,
        init_range.start_addr,
        init_range.end_addr,
        address - init_range.start_addr,
    );
    match find_pattern(&mem_view, address, address + MAX_INIT_PATTERN_SCAN_LEN, 0) {
        Some(at_config) => Some(
            InitializationState::Pattern {
                latest_read_ind,
                latest_write_ind: Some(latest_write_ind),
                at_config,
                at_bulk_init,
            },
        ),
        None => Some(
            InitializationState::Used {
                latest_read_ind,
                latest_write_ind: Some(latest_write_ind),
            },
        ),
    }
}

} // verus!
