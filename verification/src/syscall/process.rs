//! Process management syscalls.
//!
//! Each syscall first counts its entry in the running task's control
//! block, then does its work through the task manager. Failures of the
//! core come back as `-1`; records for the user are laid out as bytes and
//! stored through the running task's address space, page by page.

use vstd::prelude::*;
use crate::config::{
    MAX_SYSCALL_NUM, MICROS_PER_SEC, PAGE_SIZE, SYSCALL_EXIT, SYSCALL_GET_TIME, SYSCALL_MMAP,
    SYSCALL_MUNMAP, SYSCALL_SBRK, SYSCALL_TASK_INFO, SYSCALL_YIELD,
};
use crate::memory::{reachable, stored};
use crate::page_table::lemma_valid_permission_mask;
use crate::task::{lemma_entered, ManagerView, TaskManager, TaskStatus};

verus! {

/// Bytes of a `TimeVal` record in user memory.
pub const TIME_VAL_BYTES: usize = 16;

/// Bytes of a `TaskInfo` record in user memory.
pub const TASK_INFO_BYTES: usize = 2016;

/// The access bits a mapping request may set.
pub const PORT_CHECK: usize = 0x7;

/// The `width` low-order bytes of `value`, least significant first.
pub open spec fn le_bytes(value: nat, width: nat) -> Seq<u8>
    decreases width,
{
    if width == 0 {
        Seq::<u8>::empty()
    } else {
        seq![(value % 256) as u8] + le_bytes(value / 256, (width - 1) as nat)
    }
}

/// `le_bytes` gives as many bytes as asked for.
pub proof fn lemma_le_bytes_len(value: nat, width: nat)
    ensures
        le_bytes(value, width).len() == width,
    decreases width,
{
    if width > 0 {
        lemma_le_bytes_len(value / 256, (width - 1) as nat);
    }
}

/// Appends the `width` low-order bytes of `value` to `out`, least
/// significant first.
pub fn push_le(out: &mut Vec<u8>, value: u64, width: usize)
    ensures
        final(out)@ == old(out)@ + le_bytes(value as nat, width as nat),
{
    let mut rest: u64 = value;
    let mut k: usize = 0;
    while k < width
        invariant
            k <= width,
            out@ + le_bytes(rest as nat, (width - k) as nat) == old(out)@ + le_bytes(
                value as nat,
                width as nat,
            ),
        decreases width - k,
    {
        let ghost before = out@;
        out.push((rest % 256) as u8);
        proof {
            let tail = le_bytes((rest / 256) as nat, (width - k - 1) as nat);
            assert(before + le_bytes(rest as nat, (width - k) as nat) =~= out@ + tail);
        }
        rest = rest / 256;
        k = k + 1;
    }
    proof {
        assert(out@ + Seq::<u8>::empty() =~= out@);
    }
}

/// A time of day: whole seconds and the microseconds beyond them.
#[derive(Debug)]
pub struct TimeVal {
    pub sec: usize,
    pub usec: usize,
}

impl TimeVal {
    /// The record as it lies in user memory: the seconds, then the
    /// microseconds, eight bytes each, least significant byte first.
    pub open spec fn encoding(self) -> Seq<u8> {
        le_bytes(self.sec as nat, 8) + le_bytes(self.usec as nat, 8)
    }

    /// The time of day at `micros` microseconds on the clock.
    pub fn from_micros(micros: usize) -> (t: TimeVal)
        ensures
            t.sec == micros / MICROS_PER_SEC,
            t.usec == micros % MICROS_PER_SEC,
            t.usec < MICROS_PER_SEC,
            t.sec * MICROS_PER_SEC + t.usec == micros,
    {
        TimeVal { sec: micros / MICROS_PER_SEC, usec: micros % MICROS_PER_SEC }
    }

    /// The bytes of the record.
    pub fn to_bytes(&self) -> (bytes: Vec<u8>)
        ensures
            bytes@ == self.encoding(),
            bytes@.len() == TIME_VAL_BYTES,
    {
        let mut bytes: Vec<u8> = Vec::new();
        push_le(&mut bytes, self.sec as u64, 8);
        push_le(&mut bytes, self.usec as u64, 8);
        proof {
            lemma_le_bytes_len(self.sec as nat, 8);
            lemma_le_bytes_len(self.usec as nat, 8);
            assert(bytes@ =~= self.encoding());
        }
        bytes
    }
}

/// The number a task status is written as.
pub open spec fn status_code(status: TaskStatus) -> nat {
    match status {
        TaskStatus::Ready => 0,
        TaskStatus::Running => 1,
        TaskStatus::Exited => 2,
    }
}

/// The counters as they lie in user memory: four bytes each, least
/// significant byte first, in the order of the syscall ids.
pub open spec fn counters_encoding(times: Seq<u32>) -> Seq<u8>
    decreases times.len(),
{
    if times.len() == 0 {
        Seq::<u8>::empty()
    } else {
        counters_encoding(times.drop_last()) + le_bytes(times.last() as nat, 4)
    }
}

/// The counters take four bytes each.
pub proof fn lemma_counters_encoding_len(times: Seq<u32>)
    ensures
        counters_encoding(times).len() == 4 * times.len(),
    decreases times.len(),
{
    if times.len() > 0 {
        lemma_counters_encoding_len(times.drop_last());
        lemma_le_bytes_len(times.last() as nat, 4);
    }
}

/// Counter `id` lies in the four bytes from offset `4 * id` of the
/// counters' bytes.
pub proof fn lemma_counters_layout(times: Seq<u32>, id: int)
    requires
        0 <= id < times.len(),
    ensures
        counters_encoding(times).len() == 4 * times.len(),
        counters_encoding(times).subrange(4 * id, 4 * id + 4) == le_bytes(times[id] as nat, 4),
    decreases times.len(),
{
    let front = counters_encoding(times.drop_last());
    let tail = le_bytes(times.last() as nat, 4);
    lemma_counters_encoding_len(times);
    lemma_counters_encoding_len(times.drop_last());
    lemma_le_bytes_len(times.last() as nat, 4);
    if id == times.len() - 1 {
        assert((front + tail).subrange(4 * id, 4 * id + 4) =~= tail);
    } else {
        lemma_counters_layout(times.drop_last(), id);
        assert(times.drop_last()[id] == times[id]);
        assert((front + tail).subrange(4 * id, 4 * id + 4) =~= front.subrange(4 * id, 4 * id + 4));
    }
}

/// Where the parts of a task-information record lie: the status in the
/// first four bytes, counter `id` in the four bytes from offset
/// `4 + 4 * id`, and the running time in the last eight bytes.
pub proof fn lemma_record_layout(status: TaskStatus, times: Seq<u32>, time: usize, id: int)
    requires
        times.len() == MAX_SYSCALL_NUM,
        0 <= id < MAX_SYSCALL_NUM,
    ensures
        record_encoding(status, times, time).len() == TASK_INFO_BYTES,
        record_encoding(status, times, time).subrange(0, 4) == le_bytes(status_code(status), 4),
        record_encoding(status, times, time).subrange(4 + 4 * id, 8 + 4 * id) == le_bytes(
            times[id] as nat,
            4,
        ),
        record_encoding(status, times, time).subrange(2008, 2016) == le_bytes(time as nat, 8),
{
    let head = le_bytes(status_code(status), 4);
    let counters = counters_encoding(times);
    let pad = le_bytes(0, 4);
    let tail = le_bytes(time as nat, 8);
    let all = record_encoding(status, times, time);
    lemma_le_bytes_len(status_code(status), 4);
    lemma_counters_layout(times, id);
    lemma_le_bytes_len(0, 4);
    lemma_le_bytes_len(time as nat, 8);
    assert(all.subrange(0, 4) =~= head);
    assert(all.subrange(4 + 4 * id, 8 + 4 * id) =~= counters.subrange(4 * id, 4 * id + 4));
    assert(all.subrange(2008, 2016) =~= tail);
}

/// Task information
pub struct TaskInfo {
    /// Task status in its life cycle
    status: TaskStatus,
    /// The numbers of syscall called by task
    syscall_times: [u32; MAX_SYSCALL_NUM],
    /// Total running time of task
    time: usize,
}

impl TaskInfo {
    /// The status recorded.
    pub closed spec fn spec_status(&self) -> TaskStatus {
        self.status
    }

    /// The counters recorded, by syscall id.
    pub closed spec fn spec_syscall_times(&self) -> Seq<u32> {
        self.syscall_times@
    }

    /// The running time recorded.
    pub closed spec fn spec_time(&self) -> usize {
        self.time
    }

    /// The record as it lies in user memory: the status in four bytes,
    /// the counters in four bytes each, four bytes of zero, and the time
    /// in eight bytes; every number least significant byte first.
    pub open spec fn encoding(&self) -> Seq<u8> {
        record_encoding(self.spec_status(), self.spec_syscall_times(), self.spec_time())
    }

    /// A record of the given status, counters and running time.
    pub fn new(status: TaskStatus, syscall_times: [u32; MAX_SYSCALL_NUM], time: usize) -> (info:
        TaskInfo)
        ensures
            info.spec_status() == status,
            info.spec_syscall_times() == syscall_times@,
            info.spec_time() == time,
    {
        TaskInfo { status, syscall_times, time }
    }

    /// The status recorded.
    #[verifier::when_used_as_spec(spec_status)]
    pub fn status(&self) -> (status: TaskStatus)
        ensures
            status == self.spec_status(),
    {
        self.status
    }

    /// How often syscall `id` was entered, or `None` for an id beyond the
    /// table.
    pub fn syscall_count(&self, id: usize) -> (count: Option<u32>)
        ensures
            count == if id < MAX_SYSCALL_NUM {
                Some(self.spec_syscall_times()[id as int])
            } else {
                None
            },
    {
        if id < MAX_SYSCALL_NUM {
            Some(self.syscall_times[id])
        } else {
            None
        }
    }

    /// The running time recorded.
    #[verifier::when_used_as_spec(spec_time)]
    pub fn time(&self) -> (time: usize)
        ensures
            time == self.spec_time(),
    {
        self.time
    }

    /// The bytes of the record.
    pub fn to_bytes(&self) -> (bytes: Vec<u8>)
        ensures
            bytes@ == self.encoding(),
            bytes@.len() == TASK_INFO_BYTES,
    {
        let mut bytes: Vec<u8> = Vec::new();
        let code: u64 = match self.status {
            TaskStatus::Ready => 0,
            TaskStatus::Running => 1,
            TaskStatus::Exited => 2,
        };
        push_le(&mut bytes, code, 4);
        let ghost head = bytes@;
        let mut i: usize = 0;
        while i < MAX_SYSCALL_NUM
            invariant
                i <= MAX_SYSCALL_NUM,
                bytes@ == head + counters_encoding(self.syscall_times@.take(i as int)),
            decreases MAX_SYSCALL_NUM - i,
        {
            let ghost before = bytes@;
            push_le(&mut bytes, self.syscall_times[i] as u64, 4);
            proof {
                let upto = self.syscall_times@.take(i + 1);
                assert(upto.drop_last() =~= self.syscall_times@.take(i as int));
                assert(upto.last() == self.syscall_times@[i as int]);
                assert(bytes@ =~= head + counters_encoding(upto));
            }
            i = i + 1;
        }
        proof {
            assert(self.syscall_times@.take(MAX_SYSCALL_NUM as int) =~= self.syscall_times@);
        }
        push_le(&mut bytes, 0, 4);
        push_le(&mut bytes, self.time as u64, 8);
        proof {
            lemma_le_bytes_len(status_code(self.status), 4);
            lemma_counters_encoding_len(self.syscall_times@);
            lemma_le_bytes_len(0, 4);
            lemma_le_bytes_len(self.time as nat, 8);
            assert(bytes@ =~= self.encoding());
        }
        bytes
    }
}

/// The bytes of a task-information record of the given contents.
pub open spec fn record_encoding(status: TaskStatus, times: Seq<u32>, time: usize) -> Seq<u8> {
    le_bytes(status_code(status), 4) + counters_encoding(times) + le_bytes(0, 4) + le_bytes(
        time as nat,
        8,
    )
}

/// The running task exits and submits an exit code. The task that runs
/// next is returned; `None` means that no task is left and the system
/// shuts down. Control never goes back to the task that exited.
pub fn sys_exit(kernel: &mut TaskManager, _exit_code: i32) -> (next: Option<usize>)
    requires
        old(kernel).wf(),
        old(kernel)@.current is Some,
    ensures
        final(kernel).wf(),
        old(kernel)@.entered(SYSCALL_EXIT).exited(final(kernel)@),
        next matches Some(n) ==> final(kernel)@.current == Some(n as int),
        next is None ==> final(kernel)@.current is None,
{
    kernel.record_syscall(SYSCALL_EXIT);
    kernel.exit_current_and_run_next()
}

/// The running task gives up the processor for other tasks. Returns 0
/// once the next task, in round-robin order, has been put on it.
pub fn sys_yield(kernel: &mut TaskManager) -> (r: isize)
    requires
        old(kernel).wf(),
        old(kernel)@.current is Some,
    ensures
        final(kernel).wf(),
        r == 0,
        final(kernel)@ == old(kernel)@.entered(SYSCALL_YIELD).yielded(),
{
    kernel.record_syscall(SYSCALL_YIELD);
    kernel.suspend_current_and_run_next();
    0
}

/// Writes the time of day, as seconds and microseconds of the latest
/// clock reading, to the `TimeVal` record at user address `ts`. The
/// record may cross a page boundary. Always returns 0; if part of the
/// record lies in no mapped page, nothing is written.
pub fn sys_get_time(kernel: &mut TaskManager, ts: usize, _tz: usize) -> (r: isize)
    requires
        old(kernel).wf(),
        old(kernel)@.current is Some,
    ensures
        final(kernel).wf(),
        r == 0,
        final(kernel)@ == (ManagerView {
            memory: final(kernel)@.memory,
            ..old(kernel)@.entered(SYSCALL_GET_TIME)
        }),
        if reachable(
            old(kernel)@.current_space().mappings,
            old(kernel)@.memory.len() as int,
            ts as int,
            TIME_VAL_BYTES as int,
        ) {
            stored(
                old(kernel)@.memory,
                final(kernel)@.memory,
                old(kernel)@.current_space().mappings,
                ts as int,
                (TimeVal {
                    sec: old(kernel)@.clock / MICROS_PER_SEC,
                    usec: old(kernel)@.clock % MICROS_PER_SEC,
                }).encoding(),
                TIME_VAL_BYTES as int,
            )
        } else {
            final(kernel)@.memory == old(kernel)@.memory
        },
{
    kernel.record_syscall(SYSCALL_GET_TIME);
    proof {
        old(kernel).lemma_wf();
        lemma_entered(old(kernel)@, SYSCALL_GET_TIME);
    }
    let timeval = TimeVal::from_micros(kernel.now());
    let bytes = timeval.to_bytes();
    kernel.write_user(ts, &bytes);
    0
}

/// Writes the status, the syscall counters and the running time of the
/// running task to the `TaskInfo` record at user address `ti`. The record
/// may cross page boundaries. Returns 0 when the record was written and
/// -1, with nothing written, if part of it lies in no mapped page.
pub fn sys_task_info(kernel: &mut TaskManager, ti: usize) -> (r: isize)
    requires
        old(kernel).wf(),
        old(kernel)@.current is Some,
    ensures
        final(kernel).wf(),
        r == 0 <==> reachable(
            old(kernel)@.current_space().mappings,
            old(kernel)@.memory.len() as int,
            ti as int,
            TASK_INFO_BYTES as int,
        ),
        r == 0 || r == -1,
        final(kernel)@ == (ManagerView {
            memory: final(kernel)@.memory,
            ..old(kernel)@.entered(SYSCALL_TASK_INFO)
        }),
        r == 0 ==> stored(
            old(kernel)@.memory,
            final(kernel)@.memory,
            old(kernel)@.current_space().mappings,
            ti as int,
            record_encoding(
                TaskStatus::Running,
                old(kernel)@.entered(SYSCALL_TASK_INFO).tasks[old(kernel)@.current->0].syscall_times,
                old(kernel)@.running_time() as usize,
            ),
            TASK_INFO_BYTES as int,
        ),
        r == -1 ==> final(kernel)@.memory == old(kernel)@.memory,
{
    kernel.record_syscall(SYSCALL_TASK_INFO);
    proof {
        old(kernel).lemma_wf();
        lemma_entered(old(kernel)@, SYSCALL_TASK_INFO);
    }
    let (status, syscall_times, time) = kernel.get_current_taskinfo();
    let info = TaskInfo::new(status, syscall_times, time);
    let bytes = info.to_bytes();
    if kernel.write_user(ti, &bytes) {
        0
    } else {
        -1
    }
}

/// Maps `len` bytes at `start` with access bits `port` for the running
/// task. `port` must be nonzero and inside the mask `0b111`, and `start`
/// page-aligned. Returns 0 on success and -1 on any failure; a failed
/// request maps nothing.
pub fn sys_mmap(kernel: &mut TaskManager, start: usize, len: usize, port: usize) -> (r: isize)
    requires
        old(kernel).wf(),
        old(kernel)@.current is Some,
    ensures
        final(kernel).wf(),
        r == 0 || r == -1,
        r == 0 <==> old(kernel)@.current_space().mmap_failure(
            old(kernel)@.free.len(),
            start,
            len,
            port,
        ) is None,
        r == -1 ==> final(kernel)@ == old(kernel)@.entered(SYSCALL_MMAP),
        r == 0 ==> {
            &&& final(kernel)@ == old(kernel)@.entered(SYSCALL_MMAP).with_space(
                old(kernel)@.current->0,
                final(kernel)@.current_space(),
                final(kernel)@.free,
            )
            &&& old(kernel)@.current_space().mmapped(
                old(kernel)@.free,
                start,
                len,
                port,
                final(kernel)@.current_space(),
                final(kernel)@.free,
            )
        },
{
    kernel.record_syscall(SYSCALL_MMAP);
    proof {
        old(kernel).lemma_wf();
        lemma_entered(old(kernel)@, SYSCALL_MMAP);
    }
    proof {
        lemma_valid_permission_mask(port);
    }
    if (port & PORT_CHECK == 0) || (port & !PORT_CHECK != 0) {
        return -1;
    }
    if start % PAGE_SIZE != 0 {
        return -1;
    }
    kernel.mmap_current_task(start, len, port)
}

/// Unmaps `len` bytes at `start` for the running task. `start` must be
/// page-aligned. Returns 0 on success and -1 on failure; a failed request
/// unmaps nothing.
pub fn sys_munmap(kernel: &mut TaskManager, start: usize, len: usize) -> (r: isize)
    requires
        old(kernel).wf(),
        old(kernel)@.current is Some,
    ensures
        final(kernel).wf(),
        r == 0 || r == -1,
        r == 0 <==> old(kernel)@.current_space().munmap_failure(start, len) is None,
        r == -1 ==> final(kernel)@ == old(kernel)@.entered(SYSCALL_MUNMAP),
        r == 0 ==> {
            &&& final(kernel)@ == old(kernel)@.entered(SYSCALL_MUNMAP).with_space(
                old(kernel)@.current->0,
                final(kernel)@.current_space(),
                final(kernel)@.free,
            )
            &&& old(kernel)@.current_space().munmapped(
                old(kernel)@.free,
                start,
                len,
                final(kernel)@.current_space(),
                final(kernel)@.free,
            )
        },
{
    kernel.record_syscall(SYSCALL_MUNMAP);
    proof {
        old(kernel).lemma_wf();
        lemma_entered(old(kernel)@, SYSCALL_MUNMAP);
    }
    if start % PAGE_SIZE != 0 {
        return -1;
    }
    kernel.munmap_current_task(start, len)
}

/// Changes the size of the running task's data segment by `size` bytes.
/// Returns the program break as it was before on success and -1 on
/// failure; a failed request changes nothing.
pub fn sys_sbrk(kernel: &mut TaskManager, size: i32) -> (r: isize)
    requires
        old(kernel).wf(),
        old(kernel)@.current is Some,
    ensures
        final(kernel).wf(),
        r == -1 <==> old(kernel)@.current_space().break_failure(
            old(kernel)@.free.len(),
            size as int,
        ),
        r == -1 ==> final(kernel)@ == old(kernel)@.entered(SYSCALL_SBRK),
        r != -1 ==> {
            &&& r == old(kernel)@.current_space().brk
            &&& final(kernel)@ == old(kernel)@.entered(SYSCALL_SBRK).with_space(
                old(kernel)@.current->0,
                final(kernel)@.current_space(),
                final(kernel)@.free,
            )
            &&& old(kernel)@.current_space().break_adjusted(
                old(kernel)@.free,
                size as int,
                final(kernel)@.current_space(),
                final(kernel)@.free,
            )
        },
{
    kernel.record_syscall(SYSCALL_SBRK);
    proof {
        old(kernel).lemma_wf();
        lemma_entered(old(kernel)@, SYSCALL_SBRK);
    }
    if let Some(old_brk) = kernel.change_program_brk(size) {
        old_brk as isize
    } else {
        -1
    }
}

} // verus!
