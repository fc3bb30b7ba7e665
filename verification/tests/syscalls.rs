use kernel_core::config::{
    PAGE_SIZE, SYSCALL_EXIT, SYSCALL_GET_TIME, SYSCALL_MMAP, SYSCALL_MUNMAP, SYSCALL_SBRK,
    SYSCALL_TASK_INFO, SYSCALL_YIELD,
};
use kernel_core::syscall::process::{
    push_le, sys_exit, sys_get_time, sys_mmap, sys_munmap, sys_sbrk, sys_task_info, sys_yield,
    TaskInfo, TimeVal, TASK_INFO_BYTES, TIME_VAL_BYTES,
};
use kernel_core::task::{TaskContext, TaskManager, TaskStatus};

const HEAP: usize = 0x20000;

fn kernel_with(tasks: usize) -> TaskManager {
    let mut kernel = TaskManager::new(64).unwrap();
    for _ in 0..tasks {
        kernel.add_task(HEAP, TaskContext { ra: 0, sp: 0, saved: [0; 12] }).unwrap();
    }
    kernel.run_first_task();
    kernel
}

fn u64_at(bytes: &[u8], at: usize) -> u64 {
    let mut raw = [0u8; 8];
    raw.copy_from_slice(&bytes[at..at + 8]);
    u64::from_le_bytes(raw)
}

fn u32_at(bytes: &[u8], at: usize) -> u32 {
    let mut raw = [0u8; 4];
    raw.copy_from_slice(&bytes[at..at + 4]);
    u32::from_le_bytes(raw)
}

fn count_of(kernel: &TaskManager, id: usize) -> u32 {
    kernel.get_current_taskinfo().1[id]
}

#[test]
fn numbers_are_laid_out_least_significant_byte_first() {
    let mut out = vec![0xEE];
    push_le(&mut out, 0x0102030405060708, 8);
    assert_eq!(out, vec![0xEE, 8, 7, 6, 5, 4, 3, 2, 1]);
    let mut out = Vec::new();
    push_le(&mut out, 0x0102030405060708, 4);
    assert_eq!(out, vec![8, 7, 6, 5]);
    push_le(&mut out, 300, 0);
    assert_eq!(out.len(), 4);
    push_le(&mut out, u64::MAX, 8);
    assert_eq!(u64_at(&out, 4), u64::MAX);
}

#[test]
fn a_time_of_day_splits_the_microseconds() {
    let t = TimeVal::from_micros(3_500_042);
    assert_eq!(t.sec, 3);
    assert_eq!(t.usec, 500_042);
    let t = TimeVal::from_micros(999_999);
    assert_eq!((t.sec, t.usec), (0, 999_999));
    let t = TimeVal::from_micros(1_000_000);
    assert_eq!((t.sec, t.usec), (1, 0));
    let bytes = TimeVal { sec: 0x1122, usec: 7 }.to_bytes();
    assert_eq!(bytes.len(), TIME_VAL_BYTES);
    assert_eq!(u64_at(&bytes, 0), 0x1122);
    assert_eq!(u64_at(&bytes, 8), 7);
}

#[test]
fn a_task_info_record_has_a_fixed_layout() {
    let mut counts = [0u32; 500];
    counts[0] = 0xDEADBEEF;
    counts[124] = 3;
    counts[499] = 77;
    let info = TaskInfo::new(TaskStatus::Exited, counts, 0x0102030405);
    assert_eq!(info.status(), TaskStatus::Exited);
    assert_eq!(info.syscall_count(124), Some(3));
    assert_eq!(info.syscall_count(500), None);
    assert_eq!(info.time(), 0x0102030405);
    let bytes = info.to_bytes();
    assert_eq!(bytes.len(), TASK_INFO_BYTES);
    assert_eq!(u32_at(&bytes, 0), 2);
    assert_eq!(u32_at(&bytes, 4), 0xDEADBEEF);
    assert_eq!(u32_at(&bytes, 4 + 4 * 124), 3);
    assert_eq!(u32_at(&bytes, 4 + 4 * 499), 77);
    assert_eq!(u32_at(&bytes, 2004), 0);
    assert_eq!(u64_at(&bytes, 2008), 0x0102030405);
    assert_eq!(TaskInfo::new(TaskStatus::Ready, counts, 0).to_bytes()[0], 0);
    assert_eq!(TaskInfo::new(TaskStatus::Running, counts, 0).to_bytes()[0], 1);
}

#[test]
fn mmap_write_read_remap_scenario() {
    let mut kernel = kernel_with(1);
    assert_eq!(sys_mmap(&mut kernel, 0x10000, 4096, 0b011), 0);
    let data: Vec<u8> = (0..=255).collect();
    assert!(kernel.write_user(0x10000 + 100, &data));
    assert_eq!(kernel.read_user(0x10000 + 100, 256), Some(data));
    assert_eq!(sys_mmap(&mut kernel, 0x10000, 4096, 0b011), -1);
    assert_eq!(sys_munmap(&mut kernel, 0x10000, 4096), 0);
    assert_eq!(kernel.read_user(0x10000 + 100, 256), None);
    assert_eq!(sys_mmap(&mut kernel, 0x10000, 4096, 0b011), 0);
    assert!(kernel.cur_task_translate(0x10000).is_some());
}

#[test]
fn get_time_twice_does_not_go_back() {
    let mut kernel = kernel_with(1);
    sys_mmap(&mut kernel, 0x10000, 4096, 0b011);
    kernel.advance_clock(3_500_042);
    assert_eq!(sys_get_time(&mut kernel, 0x10000, 0), 0);
    let first = kernel.read_user(0x10000, TIME_VAL_BYTES).unwrap();
    assert_eq!(u64_at(&first, 0), 3);
    assert_eq!(u64_at(&first, 8), 500_042);
    kernel.advance_clock(4_000_001);
    assert_eq!(sys_get_time(&mut kernel, 0x10010, 0), 0);
    let second = kernel.read_user(0x10010, TIME_VAL_BYTES).unwrap();
    assert_eq!(u64_at(&second, 0), 4);
    assert_eq!(u64_at(&second, 8), 1);
    let a = u64_at(&first, 0) * 1_000_000 + u64_at(&first, 8);
    let b = u64_at(&second, 0) * 1_000_000 + u64_at(&second, 8);
    assert!(a <= b);
    assert_eq!(a, 3_500_042);
    assert_eq!(b, 4_000_001);
    // a reading from the past does not turn the time back
    kernel.advance_clock(1);
    assert_eq!(sys_get_time(&mut kernel, 0x10020, 0), 0);
    let third = kernel.read_user(0x10020, TIME_VAL_BYTES).unwrap();
    assert_eq!(u64_at(&third, 0) * 1_000_000 + u64_at(&third, 8), 4_000_001);
}

#[test]
fn get_time_writes_across_a_page_boundary() {
    let mut kernel = kernel_with(1);
    sys_mmap(&mut kernel, 0x10000, 2 * 4096, 0b011);
    kernel.advance_clock(7_000_009);
    assert_eq!(sys_get_time(&mut kernel, 0x10000 + 4096 - 5, 0), 0);
    let bytes = kernel.read_user(0x10000 + 4096 - 5, TIME_VAL_BYTES).unwrap();
    assert_eq!(u64_at(&bytes, 0), 7);
    assert_eq!(u64_at(&bytes, 8), 9);
    // the two halves lie in frames that are not neighbours
    let low = kernel.cur_task_translate(0x10000 + 4095).unwrap();
    let high = kernel.cur_task_translate(0x10000 + 4096).unwrap();
    assert_ne!(low + 1, high);
}

#[test]
fn get_time_into_unmapped_memory_writes_nothing() {
    let mut kernel = kernel_with(1);
    sys_mmap(&mut kernel, 0x10000, 4096, 0b011);
    kernel.advance_clock(9_000_000);
    // the record would end beyond the mapped page
    assert_eq!(sys_get_time(&mut kernel, 0x10000 + 4096 - 8, 0), 0);
    assert_eq!(kernel.read_user(0x10000 + 4096 - 8, 8), Some(vec![0; 8]));
    assert_eq!(sys_get_time(&mut kernel, 0x50000, 0), 0);
    assert_eq!(count_of(&kernel, SYSCALL_GET_TIME), 2);
}

#[test]
fn task_info_reports_status_counts_and_time() {
    let mut kernel = kernel_with(2);
    kernel.advance_clock(100);
    sys_mmap(&mut kernel, 0x10000, 4096, 0b011);
    for _ in 0..3 {
        sys_get_time(&mut kernel, 0x10000, 0);
    }
    sys_sbrk(&mut kernel, 0);
    sys_yield(&mut kernel);
    sys_yield(&mut kernel);
    assert_eq!(kernel.current_task(), Some(0));
    kernel.advance_clock(2_600);
    assert_eq!(sys_task_info(&mut kernel, 0x10000), 0);
    let bytes = kernel.read_user(0x10000, TASK_INFO_BYTES).unwrap();
    assert_eq!(u32_at(&bytes, 0), 1);
    let count = |id: usize| u32_at(&bytes, 4 + 4 * id);
    assert_eq!(count(SYSCALL_MMAP), 1);
    assert_eq!(count(SYSCALL_GET_TIME), 3);
    assert_eq!(count(SYSCALL_SBRK), 1);
    // task 0 yielded once; the other yield was task 1's
    assert_eq!(count(SYSCALL_YIELD), 1);
    assert_eq!(count(SYSCALL_TASK_INFO), 1);
    assert_eq!(count(SYSCALL_MUNMAP), 0);
    assert_eq!(count(SYSCALL_EXIT), 0);
    assert_eq!(u64_at(&bytes, 2008), 2_600);
    let total: u32 = (0..500).map(count).sum();
    assert_eq!(total, 7);
}

#[test]
fn task_info_counts_every_call_of_a_syscall() {
    let mut kernel = kernel_with(1);
    sys_mmap(&mut kernel, 0x10000, 4096, 0b011);
    for m in 1..=20u32 {
        assert_eq!(sys_munmap(&mut kernel, 0x30000, 4096), -1);
        assert_eq!(sys_task_info(&mut kernel, 0x10000), 0);
        let bytes = kernel.read_user(0x10000, TASK_INFO_BYTES).unwrap();
        assert_eq!(u32_at(&bytes, 4 + 4 * SYSCALL_MUNMAP), m);
        assert_eq!(u32_at(&bytes, 4 + 4 * SYSCALL_TASK_INFO), m);
    }
}

#[test]
fn task_info_writes_across_a_page_boundary() {
    let mut kernel = kernel_with(1);
    sys_mmap(&mut kernel, 0x10000, 2 * 4096, 0b011);
    let at = 0x10000 + 4096 - 1000;
    assert_eq!(sys_task_info(&mut kernel, at), 0);
    let bytes = kernel.read_user(at, TASK_INFO_BYTES).unwrap();
    assert_eq!(u32_at(&bytes, 0), 1);
    assert_eq!(u32_at(&bytes, 4 + 4 * SYSCALL_MMAP), 1);
    assert_eq!(u32_at(&bytes, 4 + 4 * SYSCALL_TASK_INFO), 1);
}

#[test]
fn task_info_into_unmapped_memory_fails() {
    let mut kernel = kernel_with(1);
    sys_mmap(&mut kernel, 0x10000, 4096, 0b011);
    assert_eq!(sys_task_info(&mut kernel, 0x50000), -1);
    // the record would end beyond the mapped page: nothing of it is written
    assert_eq!(sys_task_info(&mut kernel, 0x10000 + 4096 - 2000), -1);
    assert_eq!(kernel.read_user(0x10000 + 4096 - 2000, 2000), Some(vec![0; 2000]));
    // the failed calls were counted all the same
    assert_eq!(count_of(&kernel, SYSCALL_TASK_INFO), 2);
}

#[test]
fn mmap_with_bad_access_bits_fails_and_maps_nothing() {
    let mut kernel = kernel_with(1);
    let free = kernel.free_frames();
    for port in [0usize, 8, 9, 0b1000_0011, usize::MAX] {
        assert_eq!(sys_mmap(&mut kernel, 0x10000, 4096, port), -1);
    }
    assert_eq!(kernel.free_frames(), free);
    assert_eq!(kernel.current_region_count(), 1);
    assert_eq!(kernel.cur_task_translate(0x10000), None);
    assert_eq!(count_of(&kernel, SYSCALL_MMAP), 5);
    for port in 1..=7usize {
        assert_eq!(sys_mmap(&mut kernel, 0x10000 + port * 4096, 4096, port), 0);
    }
}

#[test]
fn mmap_with_an_unaligned_start_fails() {
    let mut kernel = kernel_with(1);
    assert_eq!(sys_mmap(&mut kernel, 0x10010, 4096, 0b011), -1);
    assert_eq!(sys_mmap(&mut kernel, 0x10010, 4096, 0), -1);
    assert_eq!(kernel.current_region_count(), 1);
}

#[test]
fn mmap_over_a_region_fails_and_maps_nothing() {
    let mut kernel = kernel_with(1);
    assert_eq!(sys_mmap(&mut kernel, 0x10000, 2 * 4096, 0b011), 0);
    let free = kernel.free_frames();
    assert_eq!(sys_mmap(&mut kernel, 0xF000, 2 * 4096, 0b011), -1);
    assert_eq!(sys_mmap(&mut kernel, 0x11000, 2 * 4096, 0b011), -1);
    assert_eq!(kernel.free_frames(), free);
    assert_eq!(kernel.cur_task_translate(0xF000), None);
    assert_eq!(kernel.cur_task_translate(0x12000), None);
    assert_eq!(kernel.current_region_count(), 2);
}

#[test]
fn mmap_without_enough_frames_fails_and_maps_nothing() {
    let mut kernel = TaskManager::new(4).unwrap();
    kernel.add_task(HEAP, TaskContext { ra: 0, sp: 0, saved: [0; 12] }).unwrap();
    kernel.run_first_task();
    assert_eq!(sys_mmap(&mut kernel, 0x10000, 3 * 4096, 0b011), -1);
    assert_eq!(kernel.free_frames(), 3);
    assert_eq!(kernel.cur_task_translate(0x10000), None);
    assert_eq!(sys_mmap(&mut kernel, 0x10000, 2 * 4096, 0b011), 0);
    assert_eq!(kernel.free_frames(), 0);
}

#[test]
fn munmap_of_a_range_not_mapped_in_full_removes_nothing() {
    let mut kernel = kernel_with(1);
    sys_mmap(&mut kernel, 0x10000, 2 * 4096, 0b011);
    let free = kernel.free_frames();
    assert_eq!(sys_munmap(&mut kernel, 0x10000, 3 * 4096), -1);
    assert_eq!(sys_munmap(&mut kernel, 0xF000, 2 * 4096), -1);
    assert_eq!(sys_munmap(&mut kernel, 0x10100, 4096), -1);
    assert_eq!(kernel.free_frames(), free);
    assert!(kernel.cur_task_translate(0x10000).is_some());
    assert!(kernel.cur_task_translate(0x11000).is_some());
    // two neighbouring mappings can go in one request
    assert_eq!(sys_mmap(&mut kernel, 0x12000, 4096, 0b001), 0);
    assert_eq!(sys_munmap(&mut kernel, 0x10000, 3 * 4096), 0);
    assert_eq!(kernel.current_region_count(), 1);
}

#[test]
fn mmap_then_munmap_leaves_the_free_frames_as_they_were() {
    let mut kernel = kernel_with(2);
    sys_mmap(&mut kernel, 0x40000, 4096, 0b001);
    let free = kernel.free_frames();
    let regions = kernel.current_region_count();
    assert_eq!(sys_mmap(&mut kernel, 1000 * PAGE_SIZE, 30 * PAGE_SIZE, 0b111), 0);
    // thirty pages and the two leaf tables they lie under
    assert_eq!(kernel.free_frames(), free - 32);
    assert_eq!(sys_munmap(&mut kernel, 1000 * PAGE_SIZE, 30 * PAGE_SIZE), 0);
    assert_eq!(kernel.free_frames(), free);
    assert_eq!(kernel.current_region_count(), regions);
    assert!(kernel.cur_task_translate(0x40000).is_some());
}

#[test]
fn sbrk_returns_the_previous_break() {
    let mut kernel = kernel_with(1);
    assert_eq!(sys_sbrk(&mut kernel, 0), HEAP as isize);
    assert_eq!(sys_sbrk(&mut kernel, 4097), HEAP as isize);
    assert_eq!(sys_sbrk(&mut kernel, -4097), (HEAP + 4097) as isize);
    assert_eq!(sys_sbrk(&mut kernel, 0), HEAP as isize);
    assert_eq!(sys_sbrk(&mut kernel, -1), -1);
    assert_eq!(sys_sbrk(&mut kernel, i32::MAX), -1);
    assert_eq!(sys_sbrk(&mut kernel, i32::MIN), -1);
    assert_eq!(kernel.current_break(), HEAP);
    assert_eq!(count_of(&kernel, SYSCALL_SBRK), 7);
}

#[test]
fn sbrk_gives_memory_that_can_be_used() {
    let mut kernel = kernel_with(1);
    assert_eq!(sys_sbrk(&mut kernel, 6000), HEAP as isize);
    assert!(kernel.write_user(HEAP + 4090, &vec![5u8; 12]));
    assert_eq!(kernel.read_user(HEAP + 4090, 12), Some(vec![5u8; 12]));
    assert_eq!(sys_sbrk(&mut kernel, -6000), (HEAP + 6000) as isize);
    assert_eq!(kernel.read_user(HEAP, 1), None);
}

#[test]
fn yield_returns_zero_and_switches_tasks() {
    let mut kernel = kernel_with(3);
    let mut order = Vec::new();
    for _ in 0..6 {
        assert_eq!(sys_yield(&mut kernel), 0);
        order.push(kernel.current_task().unwrap());
    }
    assert_eq!(order, vec![1, 2, 0, 1, 2, 0]);
    // each task yielded twice
    for _ in 0..3 {
        assert_eq!(count_of(&kernel, SYSCALL_YIELD), 2);
        kernel.suspend_current_and_run_next();
    }
}

#[test]
fn a_task_runs_again_once_per_round() {
    let mut kernel = kernel_with(5);
    sys_yield(&mut kernel);
    sys_yield(&mut kernel);
    assert_eq!(sys_exit(&mut kernel, 0), Some(3));
    // four live tasks: 0, 1, 3, 4; task 3 is running
    let mut turns = [0usize; 5];
    for k in 1..=12 {
        sys_yield(&mut kernel);
        let now = kernel.current_task().unwrap();
        turns[now] += 1;
        assert_eq!(now == 3, k % 4 == 0);
    }
    assert_eq!(turns, [3, 3, 0, 3, 3]);
}

#[test]
fn exit_runs_the_next_task_or_halts() {
    let mut kernel = kernel_with(2);
    sys_mmap(&mut kernel, 0x10000, 4096, 0b011);
    let free = kernel.free_frames();
    assert_eq!(sys_exit(&mut kernel, 0), Some(1));
    assert_eq!(kernel.status(0), Some(TaskStatus::Exited));
    assert_eq!(kernel.status(1), Some(TaskStatus::Running));
    // the page, its leaf table and the directory came back
    assert_eq!(kernel.free_frames(), free + 3);
    assert_eq!(sys_exit(&mut kernel, -3), None);
    assert_eq!(kernel.current_task(), None);
    assert_eq!(kernel.free_frames(), 64);
}
