use kernel_core::address_space::MmapError;
use kernel_core::config::{MAX_FRAMES, MAX_SYSCALL_NUM, PAGE_SIZE};
use kernel_core::task::{TaskContext, TaskManager, TaskStatus};

const HEAP: usize = 0x20000;

fn context(sp: usize) -> TaskContext {
    TaskContext { ra: 0x1000, sp, saved: [0; 12] }
}

fn manager_with(tasks: usize) -> TaskManager {
    let mut manager = TaskManager::new(64).unwrap();
    for i in 0..tasks {
        assert_eq!(manager.add_task(HEAP, context(0x8000 + i)), Ok(i));
    }
    manager
}

fn statuses(manager: &TaskManager) -> Vec<TaskStatus> {
    let mut all = Vec::new();
    for i in 0..manager.task_count() {
        all.push(manager.status(i).unwrap());
    }
    all
}

#[test]
fn a_new_manager_has_no_task() {
    let mut manager = TaskManager::new(8).unwrap();
    assert_eq!(manager.task_count(), 0);
    assert_eq!(manager.current_task(), None);
    assert_eq!(manager.free_frames(), 8);
    assert_eq!(manager.now(), 0);
    assert_eq!(manager.status(0), None);
    assert_eq!(manager.run_first_task(), None);
    assert!(TaskManager::new(MAX_FRAMES + 1).is_none());
}

#[test]
fn a_task_starts_ready_with_an_address_space_of_its_own() {
    let mut manager = TaskManager::new(8).unwrap();
    assert_eq!(manager.add_task(HEAP, context(0x9000)), Ok(0));
    assert_eq!(manager.add_task(HEAP, context(0xA000)), Ok(1));
    assert_eq!(manager.task_count(), 2);
    assert_eq!(manager.free_frames(), 6);
    assert_eq!(statuses(&manager), vec![TaskStatus::Ready, TaskStatus::Ready]);
    assert!(manager.is_live(0));
    assert!(manager.is_live(1));
    assert!(!manager.is_live(2));
    assert_eq!(manager.context(1).unwrap().sp, 0xA000);
    assert!(manager.context(2).is_none());
    assert_eq!(manager.current_task(), None);
}

#[test]
fn a_task_needs_an_aligned_heap_and_a_frame() {
    let mut manager = TaskManager::new(1).unwrap();
    assert_eq!(manager.add_task(HEAP + 8, context(0)), Err(MmapError::InvalidAddress));
    assert_eq!(manager.task_count(), 0);
    assert_eq!(manager.add_task(HEAP, context(0)), Ok(0));
    assert_eq!(manager.add_task(HEAP, context(0)), Err(MmapError::OutOfMemory));
    assert_eq!(manager.task_count(), 1);
}

#[test]
fn the_first_ready_task_runs_first() {
    let mut manager = manager_with(3);
    assert_eq!(manager.run_first_task(), Some(0));
    assert_eq!(manager.current_task(), Some(0));
    assert_eq!(
        statuses(&manager),
        vec![TaskStatus::Running, TaskStatus::Ready, TaskStatus::Ready]
    );
    // starting again changes nothing
    assert_eq!(manager.run_first_task(), Some(0));
    assert_eq!(
        statuses(&manager),
        vec![TaskStatus::Running, TaskStatus::Ready, TaskStatus::Ready]
    );
}

#[test]
fn yielding_goes_round_the_ready_tasks() {
    let mut manager = manager_with(3);
    manager.run_first_task();
    let mut order = Vec::new();
    for _ in 0..7 {
        order.push(manager.suspend_current_and_run_next());
        let running = statuses(&manager).iter().filter(|s| **s == TaskStatus::Running).count();
        assert_eq!(running, 1);
    }
    assert_eq!(order, vec![1, 2, 0, 1, 2, 0, 1]);
    assert_eq!(manager.current_task(), Some(1));
    assert_eq!(
        statuses(&manager),
        vec![TaskStatus::Ready, TaskStatus::Running, TaskStatus::Ready]
    );
}

#[test]
fn a_lone_task_that_yields_runs_on() {
    let mut manager = manager_with(1);
    manager.run_first_task();
    assert_eq!(manager.suspend_current_and_run_next(), 0);
    assert_eq!(manager.suspend_current_and_run_next(), 0);
    assert_eq!(statuses(&manager), vec![TaskStatus::Running]);
}

#[test]
fn an_exited_task_is_never_chosen_again() {
    let mut manager = manager_with(4);
    manager.run_first_task();
    assert_eq!(manager.suspend_current_and_run_next(), 1);
    assert_eq!(manager.exit_current_and_run_next(), Some(2));
    assert_eq!(manager.status(1), Some(TaskStatus::Exited));
    assert!(!manager.is_live(1));
    let mut order = Vec::new();
    for _ in 0..6 {
        order.push(manager.suspend_current_and_run_next());
    }
    assert_eq!(order, vec![3, 0, 2, 3, 0, 2]);
    assert_eq!(manager.status(1), Some(TaskStatus::Exited));
}

#[test]
fn the_scheduler_halts_when_the_last_task_exits() {
    let mut manager = manager_with(2);
    manager.run_first_task();
    assert_eq!(manager.exit_current_and_run_next(), Some(1));
    assert_eq!(manager.current_task(), Some(1));
    assert_eq!(manager.exit_current_and_run_next(), None);
    assert_eq!(manager.current_task(), None);
    assert_eq!(statuses(&manager), vec![TaskStatus::Exited, TaskStatus::Exited]);
    assert_eq!(manager.run_first_task(), None);
}

#[test]
fn exit_returns_every_frame_of_the_task() {
    let mut manager = manager_with(2);
    manager.run_first_task();
    let free = manager.free_frames();
    assert_eq!(manager.mmap_current_task(0x10000, 3 * PAGE_SIZE, 0b011), 0);
    assert_eq!(manager.change_program_brk(5000), Some(HEAP));
    assert_eq!(manager.load_code(0, 700 * PAGE_SIZE, PAGE_SIZE, 0b101), Ok(()));
    assert!(manager.free_frames() < free);
    assert_eq!(manager.exit_current_and_run_next(), Some(1));
    // everything the task held, and the directory of its page table
    assert_eq!(manager.free_frames(), free + 1);
}

#[test]
fn tasks_do_not_share_frames() {
    let mut manager = manager_with(2);
    manager.run_first_task();
    assert_eq!(manager.mmap_current_task(0x10000, PAGE_SIZE, 0b011), 0);
    let first = manager.cur_task_translate(0x10000).unwrap();
    assert!(manager.write_user(0x10000, &vec![0xAA; 4]));
    assert_eq!(manager.suspend_current_and_run_next(), 1);
    assert_eq!(manager.cur_task_translate(0x10000), None);
    assert_eq!(manager.mmap_current_task(0x10000, PAGE_SIZE, 0b011), 0);
    let second = manager.cur_task_translate(0x10000).unwrap();
    assert_ne!(first / PAGE_SIZE, second / PAGE_SIZE);
    assert!(manager.write_user(0x10000, &vec![0xBB; 4]));
    assert_eq!(manager.read_user(0x10000, 4), Some(vec![0xBB; 4]));
    assert_eq!(manager.suspend_current_and_run_next(), 0);
    assert_eq!(manager.read_user(0x10000, 4), Some(vec![0xAA; 4]));
}

#[test]
fn every_entry_into_a_syscall_is_counted_once() {
    let mut manager = manager_with(2);
    manager.run_first_task();
    for _ in 0..5 {
        manager.record_syscall(64);
    }
    manager.record_syscall(93);
    manager.record_syscall(MAX_SYSCALL_NUM - 1);
    manager.record_syscall(MAX_SYSCALL_NUM);
    manager.record_syscall(usize::MAX);
    let (status, counts, _) = manager.get_current_taskinfo();
    assert_eq!(status, TaskStatus::Running);
    assert_eq!(counts[64], 5);
    assert_eq!(counts[93], 1);
    assert_eq!(counts[MAX_SYSCALL_NUM - 1], 1);
    assert_eq!(counts.iter().map(|c| *c as usize).sum::<usize>(), 7);
    // the other task has counted nothing
    manager.suspend_current_and_run_next();
    let (_, counts, _) = manager.get_current_taskinfo();
    assert!(counts.iter().all(|c| *c == 0));
}

#[test]
fn the_clock_never_runs_backwards() {
    let mut manager = manager_with(1);
    manager.advance_clock(1000);
    assert_eq!(manager.now(), 1000);
    manager.advance_clock(400);
    assert_eq!(manager.now(), 1000);
    manager.advance_clock(1000);
    assert_eq!(manager.now(), 1000);
    manager.advance_clock(1001);
    assert_eq!(manager.now(), 1001);
}

#[test]
fn running_time_counts_from_the_first_scheduling() {
    let mut manager = manager_with(2);
    manager.advance_clock(1000);
    manager.run_first_task();
    assert_eq!(manager.get_current_taskinfo().2, 0);
    manager.advance_clock(1500);
    assert_eq!(manager.get_current_taskinfo().2, 500);
    // task 1 is first scheduled at 1500
    manager.suspend_current_and_run_next();
    assert_eq!(manager.get_current_taskinfo().2, 0);
    manager.advance_clock(4000);
    assert_eq!(manager.get_current_taskinfo().2, 2500);
    // task 0 was off the processor, yet its time went on
    manager.suspend_current_and_run_next();
    assert_eq!(manager.get_current_taskinfo().2, 3000);
    manager.advance_clock(10);
    assert_eq!(manager.get_current_taskinfo().2, 3000);
}

#[test]
fn requests_of_the_running_task_come_back_as_codes() {
    let mut manager = manager_with(1);
    manager.run_first_task();
    assert_eq!(manager.current_region_count(), 1);
    assert_eq!(manager.mmap_current_task(0x10000, PAGE_SIZE, 0b011), 0);
    assert_eq!(manager.mmap_current_task(0x10000, PAGE_SIZE, 0b011), -1);
    assert_eq!(manager.mmap_current_task(0x11001, PAGE_SIZE, 0b011), -1);
    assert_eq!(manager.mmap_current_task(0x11000, PAGE_SIZE, 0), -1);
    assert_eq!(manager.current_region_count(), 2);
    assert_eq!(manager.munmap_current_task(0x11000, PAGE_SIZE), -1);
    assert_eq!(manager.munmap_current_task(0x10001, PAGE_SIZE), -1);
    assert_eq!(manager.munmap_current_task(0x10000, PAGE_SIZE), 0);
    assert_eq!(manager.current_region_count(), 1);
    assert_eq!(manager.current_break(), HEAP);
    assert_eq!(manager.change_program_brk(64), Some(HEAP));
    assert_eq!(manager.change_program_brk(-65), None);
    assert_eq!(manager.change_program_brk(i32::MIN), None);
    assert_eq!(manager.current_break(), HEAP + 64);
}

#[test]
fn the_loader_places_code_and_stack() {
    let mut manager = manager_with(2);
    assert_eq!(manager.load_code(1, 0x1000, 2 * PAGE_SIZE, 0b101), Ok(()));
    assert_eq!(manager.load_stack(1, 0x8000, PAGE_SIZE, 0b011), Ok(()));
    assert_eq!(manager.load_stack(1, 0x2000, PAGE_SIZE, 0b011), Err(MmapError::Overlap));
    assert_eq!(manager.load_code(1, 0x4000, PAGE_SIZE, 0), Err(MmapError::InvalidPermission));
    manager.run_first_task();
    assert_eq!(manager.current_region_count(), 1);
    manager.suspend_current_and_run_next();
    assert_eq!(manager.current_region_count(), 3);
    assert!(manager.cur_task_translate(0x1000).is_some());
    // what the loader placed is not the task's to unmap
    assert_eq!(manager.munmap_current_task(0x1000, PAGE_SIZE), -1);
}
