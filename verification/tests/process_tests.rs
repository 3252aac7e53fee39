use rcore_os::process_syscalls::{
    ceil_page, floor_page, sys_mmap, sys_munmap, sys_sbrk, sys_trace, virt_addr, PteFlags,
    MmapDecision, TimeVal, TraceAction, MAX_VA, PAGE_SIZE,
};

fn pte(valid: bool, readable: bool, writable: bool) -> Option<PteFlags> {
    Some(PteFlags { valid, readable, writable })
}

#[test]
fn trace_read_needs_a_readable_mapping() {
    assert_eq!(sys_trace(0, 0x1000, 0, pte(true, true, false)), TraceAction::ReadByte(0x1000));
    assert_eq!(sys_trace(0, 0x1000, 0, pte(true, false, true)), TraceAction::Fail);
    assert_eq!(sys_trace(0, 0x1000, 0, pte(false, true, true)), TraceAction::Fail);
    assert_eq!(sys_trace(0, 0x1000, 0, None), TraceAction::Fail);
}

#[test]
fn trace_rejects_addresses_beyond_sv39() {
    let too_far = (MAX_VA as usize) + 1;
    assert_eq!(sys_trace(0, too_far, 0, pte(true, true, true)), TraceAction::Fail);
    assert_eq!(sys_trace(1, too_far, 0, pte(true, true, true)), TraceAction::Fail);
    assert_eq!(sys_trace(0, MAX_VA as usize, 0, pte(true, true, true)), TraceAction::ReadByte(MAX_VA as usize));
}

#[test]
fn trace_write_keeps_the_low_byte() {
    assert_eq!(sys_trace(1, 0x2000, 0x1234, pte(true, false, true)), TraceAction::WriteByte(0x2000, 0x34));
    assert_eq!(sys_trace(1, 0x2000, 0x1234, pte(true, true, false)), TraceAction::Fail);
}

#[test]
fn trace_count_and_unknown_requests() {
    assert_eq!(sys_trace(2, 64, 0, None), TraceAction::SyscallCount(64));
    assert_eq!(sys_trace(3, 64, 0, pte(true, true, true)), TraceAction::Fail);
}

#[test]
fn page_arithmetic() {
    assert_eq!(PAGE_SIZE, 4096);
    assert_eq!(floor_page(4095), 0);
    assert_eq!(floor_page(4096), 1);
    assert_eq!(ceil_page(0), 0);
    assert_eq!(ceil_page(1), 1);
    assert_eq!(ceil_page(4096), 1);
    assert_eq!(ceil_page(4097), 2);
    assert_eq!(virt_addr(0x1234), 0x1234);
}

#[test]
fn virt_addr_drops_bits_above_39() {
    if usize::BITS == 64 {
        let v: usize = (1usize << 40) | 0x5000;
        assert_eq!(virt_addr(v), 0x5000);
    }
}

#[test]
fn mmap_decides_the_requested_range() {
    let none_mapped = |_v: usize| false;
    assert_eq!(sys_mmap(0x10000, 0x2001, 3, &none_mapped, 10), MmapDecision::MapRange(0x10000, 0x12001, 3));
}

#[test]
fn mmap_refuses_bad_prot_alignment_overlap_and_memory() {
    let none_mapped = |_v: usize| false;
    let page_17_mapped = |v: usize| v == 17;
    assert_eq!(sys_mmap(0x10000, 0x1000, 0, &none_mapped, 10), MmapDecision::Refused);
    assert_eq!(sys_mmap(0x10000, 0x1000, 8, &none_mapped, 10), MmapDecision::Refused);
    assert_eq!(sys_mmap(0x10001, 0x1000, 1, &none_mapped, 10), MmapDecision::Refused);
    assert_eq!(sys_mmap(0x10000, 0x2000, 1, &page_17_mapped, 10), MmapDecision::Refused);
    assert_eq!(sys_mmap(0x10000, 0x3000, 1, &none_mapped, 2), MmapDecision::Refused);
    assert_eq!(sys_mmap(0x10000, 0x3000, 1, &none_mapped, 3), MmapDecision::MapRange(0x10000, 0x13000, 1));
}

#[test]
fn munmap_needs_aligned_ends() {
    assert_eq!(sys_munmap(0x10000, 0x2000), Some((16, 18)));
    assert_eq!(sys_munmap(0x10000, 0x1001), None);
    assert_eq!(sys_munmap(0x10001, 0x1000), None);
}

#[test]
fn sbrk_returns_old_break_or_minus_one() {
    assert_eq!(sys_sbrk(16, |size| Some(0x8000 + size as usize - 16)), 0x8000);
    assert_eq!(sys_sbrk(-16, |_size| None), -1);
}

#[test]
fn time_val_splits_microseconds() {
    let t = TimeVal::from_us(1_234_567);
    assert_eq!(t, TimeVal { sec: 1, usec: 234_567 });
    assert_eq!(TimeVal::from_us(999_999), TimeVal { sec: 0, usec: 999_999 });
}
