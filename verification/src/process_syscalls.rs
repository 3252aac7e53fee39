//! Decisions of the process system calls that touch user memory and time:
//! `trace`, `mmap`, `munmap`, `sbrk` and the time value of `get_time`.
//! Page-table lookups are passed in as closures; the mapping work itself is
//! left to the caller as a decided action.
use vstd::prelude::*;

verus! {

/// Bytes in a page.
pub const PAGE_SIZE: usize = 4096;

/// Largest virtual address under Sv39 (39 significant bits).
pub const MAX_VA: u64 = 0x7f_ffff_ffff;

/// The Sv39 virtual address of `v`: its low 39 bits.
pub open spec fn va_of(v: usize) -> int {
    v as int % 0x80_0000_0000
}

/// The page holding address `va`.
pub open spec fn page_floor(va: int) -> int {
    va / PAGE_SIZE as int
}

/// The first page at or after address `va`.
pub open spec fn page_ceil(va: int) -> int {
    if va == 0 {
        0
    } else {
        (va - 1 + PAGE_SIZE as int) / PAGE_SIZE as int
    }
}

/// `prot` asks for some of read, write, execute and nothing else.
pub open spec fn prot_valid(prot: usize) -> bool {
    1 <= prot <= 7
}

/// The page holding address `va` starts at or below `va` and ends above it.
pub proof fn lemma_page_floor_bounds(va: int)
    requires
        va >= 0,
    ensures
        page_floor(va) * 4096 <= va < (page_floor(va) + 1) * 4096,
{
    let f = page_floor(va);
    assert(f == va / 4096);
    assert(f * 4096 <= va < (f + 1) * 4096) by (nonlinear_arith)
        requires
            f == va / 4096,
            va >= 0,
    ;
}

/// `page_ceil(va)` is the fewest pages that cover the addresses below `va`:
/// that many pages reach `va`, one fewer does not.
pub proof fn lemma_page_ceil_least_cover(va: int)
    requires
        va >= 0,
    ensures
        va == 0 ==> page_ceil(va) == 0,
        va > 0 ==> page_ceil(va) * 4096 >= va && (page_ceil(va) - 1) * 4096 < va,
{
    if va > 0 {
        let c = page_ceil(va);
        assert(c == (va - 1 + 4096) / 4096);
        assert(c * 4096 >= va && (c - 1) * 4096 < va) by (nonlinear_arith)
            requires
                c == (va - 1 + 4096) / 4096,
                va > 0,
        ;
    }
}

/// The pages an accepted `mmap` checked are exactly the pages that meet
/// `[va_of(start), va_of(start + len))`: page `v` is in the checked range
/// iff it starts below the end address and ends above the start address.
pub proof fn lemma_mmap_pages_cover_range(start_va: int, end_va: int, v: int)
    requires
        0 <= start_va <= end_va,
        start_va % 4096 == 0,
    ensures
        (page_floor(start_va) <= v < page_ceil(end_va)) <==> (v * 4096 < end_va && (v + 1) * 4096
            > start_va),
{
    lemma_page_floor_bounds(start_va);
    lemma_page_ceil_least_cover(end_va);
    assert(page_floor(start_va) * 4096 == start_va) by (nonlinear_arith)
        requires
            start_va % 4096 == 0,
            start_va >= 0,
            page_floor(start_va) == start_va / 4096,
    ;
    let f = page_floor(start_va);
    let c = page_ceil(end_va);
    if end_va == 0 {
        assert(c == 0);
        assert(start_va == 0);
    } else {
        assert((f <= v < c) <==> (v * 4096 < end_va && (v + 1) * 4096 > start_va)) by (nonlinear_arith)
            requires
                f * 4096 == start_va,
                c * 4096 >= end_va,
                (c - 1) * 4096 < end_va,
        ;
    }
}

/// The Sv39 virtual address of `v`.
pub fn virt_addr(v: usize) -> (va: usize)
    ensures
        va as int == va_of(v),
{
    let x = v as u64;
    let masked = x & MAX_VA;
    assert(x & 0x7f_ffff_ffff == x % 0x80_0000_0000) by (bit_vector);
    masked as usize
}

/// The page holding address `va`.
pub fn floor_page(va: usize) -> (p: usize)
    ensures
        p as int == page_floor(va as int),
        p * PAGE_SIZE <= va < (p + 1) * PAGE_SIZE,
{
    proof {
        lemma_page_floor_bounds(va as int);
    }
    va / PAGE_SIZE
}

/// The first page at or after address `va`.
pub fn ceil_page(va: usize) -> (p: usize)
    ensures
        p as int == page_ceil(va as int),
        va == 0 ==> p == 0,
        va > 0 ==> p * PAGE_SIZE >= va && (p - 1) * PAGE_SIZE < va,
{
    proof {
        lemma_page_ceil_least_cover(va as int);
    }
    if va == 0 {
        0
    } else {
        (va - 1) / PAGE_SIZE + 1
    }
}

/// The flags of a page-table entry that `trace` looks at.
#[derive(PartialEq, Eq, Structural, Clone, Copy, Debug)]
pub struct PteFlags {
    pub valid: bool,
    pub readable: bool,
    pub writable: bool,
}

/// The page-table entry exists, is valid, and allows writing (`write`) or
/// reading (`!write`).
pub open spec fn pte_allows(pte: Option<PteFlags>, write: bool) -> bool {
    match pte {
        Some(f) => f.valid && (if write { f.writable } else { f.readable }),
        None => false,
    }
}

/// What a `trace` call leaves to do.
#[derive(PartialEq, Eq, Structural, Clone, Copy, Debug)]
pub enum TraceAction {
    /// Return -1.
    Fail,
    /// Return the byte at this user address.
    ReadByte(usize),
    /// Write the byte at this user address and return 0.
    WriteByte(usize, u8),
    /// Return how often the current task made the system call with this id.
    SyscallCount(usize),
}

/// Decides a `trace` request: 0 reads the byte at address `id`, 1 writes
/// the low byte of `data` there, 2 asks for the count of system call `id`;
/// a read or write needs a valid address whose page is mapped with the
/// right permission (`pte` is the entry for `id`, if any).
pub fn sys_trace(trace_request: usize, id: usize, data: usize, pte: Option<PteFlags>) -> (r:
    TraceAction)
    ensures
        trace_request == 0 ==> r == (if id <= MAX_VA && pte_allows(pte, false) {
            TraceAction::ReadByte(id)
        } else {
            TraceAction::Fail
        }),
        trace_request == 1 ==> r == (if id <= MAX_VA && pte_allows(pte, true) {
            TraceAction::WriteByte(id, data as u8)
        } else {
            TraceAction::Fail
        }),
        trace_request == 2 ==> r == TraceAction::SyscallCount(id),
        trace_request > 2 ==> r == TraceAction::Fail,
{
    if trace_request == 0 {
        if id as u64 > MAX_VA {
            return TraceAction::Fail;
        }
        match pte {
            Some(f) => {
                if !f.valid || !f.readable {
                    return TraceAction::Fail;
                }
            },
            None => {
                return TraceAction::Fail;
            },
        }
        TraceAction::ReadByte(id)
    } else if trace_request == 1 {
        if id as u64 > MAX_VA {
            return TraceAction::Fail;
        }
        match pte {
            Some(f) => {
                if !f.valid || !f.writable {
                    return TraceAction::Fail;
                }
            },
            None => {
                return TraceAction::Fail;
            },
        }
        TraceAction::WriteByte(id, data as u8)
    } else if trace_request == 2 {
        TraceAction::SyscallCount(id)
    } else {
        TraceAction::Fail
    }
}

/// What an `mmap` call decided.
#[derive(PartialEq, Eq, Structural, Clone, Copy, Debug)]
pub enum MmapDecision {
    /// Return -1; nothing is mapped and no frame is taken.
    Refused,
    /// Map the addresses from the first to the second (exclusive) with
    /// permission bits `prot` (the third), then return 0.
    MapRange(usize, usize, usize),
}

/// Decides an `mmap` of `[start, start + len)` with permission bits `prot`:
/// it goes ahead when `prot` is valid, `start` is page-aligned, no page of
/// the range is mapped yet (`page_mapped` tells) and `free_frames` covers
/// the range; otherwise it is refused.
pub fn sys_mmap<F: Fn(usize) -> bool>(
    start: usize,
    len: usize,
    prot: usize,
    page_mapped: &F,
    free_frames: usize,
) -> (r: MmapDecision)
    requires
        prot_valid(prot) && va_of(start) % PAGE_SIZE as int == 0 ==> {
            &&& start + len <= usize::MAX
            &&& page_floor(va_of(start)) <= page_ceil(va_of((start + len) as usize))
        },
        forall|v: usize| call_requires(*page_mapped, (v,)),
    ensures
        r == MmapDecision::Refused || r == MmapDecision::MapRange(
            va_of(start) as usize,
            va_of((start + len) as usize) as usize,
            prot,
        ),
        r is MapRange ==> {
            let s = page_floor(va_of(start));
            let e = page_ceil(va_of((start + len) as usize));
            &&& prot_valid(prot)
            &&& va_of(start) % PAGE_SIZE as int == 0
            &&& forall|v: usize| s <= v < e ==> call_ensures(*page_mapped, (v,), false)
            &&& forall|v: usize|
                v * PAGE_SIZE < va_of((start + len) as usize) && (v + 1) * PAGE_SIZE > va_of(start)
                    ==> call_ensures(*page_mapped, (v,), false)
            &&& free_frames >= e - s
        },
        r is Refused ==> {
            ||| !prot_valid(prot)
            ||| va_of(start) % PAGE_SIZE as int != 0
            ||| exists|v: usize|
                page_floor(va_of(start)) <= v < page_ceil(va_of((start + len) as usize))
                    && #[trigger] call_ensures(*page_mapped, (v,), true)
            ||| free_frames < page_ceil(va_of((start + len) as usize)) - page_floor(va_of(start))
        },
{
    if prot & !7usize != 0 || prot & 7 == 0 {
        assert(prot & !7usize != 0 || prot & 7 == 0 <==> !(1 <= prot <= 7)) by (bit_vector);
        return MmapDecision::Refused;
    }
    assert(prot & !7usize != 0 || prot & 7 == 0 <==> !(1 <= prot <= 7)) by (bit_vector);
    let start_va = virt_addr(start);
    if start_va % PAGE_SIZE != 0 {
        return MmapDecision::Refused;
    }
    let start_vpn = floor_page(start_va);
    let end_va = virt_addr(start + len);
    let end_vpn = ceil_page(end_va);
    let mut v = start_vpn;
    while v < end_vpn
        invariant
            start_vpn <= v <= end_vpn,
            start_vpn as int == page_floor(va_of(start)),
            end_vpn as int == page_ceil(va_of((start + len) as usize)),
            forall|w: usize| call_requires(*page_mapped, (w,)),
            forall|w: usize| start_vpn <= w < v ==> call_ensures(*page_mapped, (w,), false),
        decreases end_vpn - v,
    {
        if page_mapped(v) {
            assert(call_ensures(*page_mapped, (v,), true));
            return MmapDecision::Refused;
        }
        v += 1;
    }
    if free_frames < end_vpn - start_vpn {
        return MmapDecision::Refused;
    }
    proof {
        assert forall|w: usize|
            w * PAGE_SIZE < va_of((start + len) as usize) && (w + 1) * PAGE_SIZE > va_of(start)
                implies call_ensures(*page_mapped, (w,), false) by {
            lemma_mmap_pages_cover_range(start_va as int, end_va as int, w as int);
        }
    }
    MmapDecision::MapRange(start_va, end_va, prot)
}

/// Decides a `munmap` of `[start, start + len)`: the page range
/// `(start_vpn, end_vpn)` to unmap when both ends are page-aligned, or
/// `None` (the call returns -1 and nothing is unmapped). The unmapping
/// returns 0 only if the range is exactly one mapped area, else -1.
pub fn sys_munmap(start: usize, len: usize) -> (r: Option<(usize, usize)>)
    requires
        start + len <= usize::MAX,
    ensures
        r == (if va_of(start) % PAGE_SIZE as int == 0 && va_of((start + len) as usize) % PAGE_SIZE as int == 0 {
            Some((page_floor(va_of(start)) as usize, page_ceil(va_of((start + len) as usize)) as usize))
        } else {
            None
        }),
{
    let start_va = virt_addr(start);
    let start_vpn = floor_page(start_va);
    let end_va = virt_addr(start + len);
    let end_vpn = ceil_page(end_va);
    if start_va % PAGE_SIZE != 0 || end_va % PAGE_SIZE != 0 {
        return None;
    }
    Some((start_vpn, end_vpn))
}

/// Moves the program break by `size` bytes with `change_brk`, which returns
/// the old break or `None` on failure; returns the old break, or -1.
pub fn sys_sbrk<F: FnOnce(i32) -> Option<usize>>(size: i32, change_brk: F) -> (r: isize)
    requires
        call_requires(change_brk, (size,)),
    ensures
        exists|res: Option<usize>|
            #[trigger] call_ensures(change_brk, (size,), res) && r == match res {
                Some(old_brk) => old_brk as isize,
                None => -1isize,
            },
{
    match change_brk(size) {
        Some(old_brk) => old_brk as isize,
        None => -1,
    }
}

/// A time split into whole seconds and the remaining microseconds.
#[derive(PartialEq, Eq, Structural, Clone, Copy, Debug)]
pub struct TimeVal {
    pub sec: usize,
    pub usec: usize,
}

impl TimeVal {
    /// The time `us` microseconds after the epoch.
    pub fn from_us(us: usize) -> (t: TimeVal)
        ensures
            t.sec == us / 1_000_000,
            t.usec == us % 1_000_000,
            t.sec * 1_000_000 + t.usec == us,
    {
        TimeVal { sec: us / 1_000_000, usec: us % 1_000_000 }
    }
}

} // verus!
