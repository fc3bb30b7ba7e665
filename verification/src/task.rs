//! Tasks and their manager: the registry of task control blocks, the
//! round-robin scheduler, and the single path by which a task's address
//! space and bookkeeping change.

use vstd::prelude::*;
use crate::accounting::{lemma_fit_from_owned, lemma_owned_apart_from_free};
use crate::address_space::{AddressSpace, MmapError, SpaceView};
use crate::config::{page_aligned, ADDRESS_LIMIT, MAX_FRAMES, MAX_SYSCALL_NUM, PAGE_SIZE};
use crate::frame::FrameAllocator;
use crate::memory::{bytes_at, reachable, stored, PhysMemory};
use crate::page_table::translation;
use crate::region::RegionKind;

verus! {

/// Where a task is in its life: `Ready` to `Running` when scheduled,
/// `Running` back to `Ready` when it yields, `Running` to `Exited` when
/// it exits.
#[derive(Clone, Copy, PartialEq, Eq, Structural, Debug)]
pub enum TaskStatus {
    Ready,
    Running,
    Exited,
}

/// The registers a task resumes with: return address, stack pointer and
/// the callee-saved registers.
#[derive(Clone, Copy, Debug)]
pub struct TaskContext {
    pub ra: usize,
    pub sp: usize,
    pub saved: [usize; 12],
}

/// One task as contracts see it.
pub struct TaskView {
    pub status: TaskStatus,
    /// The task's address space; an exited task has none.
    pub space: Option<SpaceView>,
    /// How often the task entered each syscall, by syscall id.
    pub syscall_times: Seq<u32>,
    /// The clock reading when the task was first scheduled.
    pub first_run: Option<usize>,
    pub context: TaskContext,
}

/// The task manager as contracts see it.
pub struct ManagerView {
    /// The tasks; a task's id is its position.
    pub tasks: Seq<TaskView>,
    /// The running task, if there is one.
    pub current: Option<int>,
    /// Number of frames of the machine.
    pub total: nat,
    /// The allocator's free list.
    pub free: Seq<usize>,
    /// The bytes of physical memory.
    pub memory: Seq<u8>,
    /// The latest reading of the microsecond clock.
    pub clock: usize,
}

/// The index that follows `i` when going round `n` tasks.
pub open spec fn following(i: int, n: int) -> int {
    if i + 1 >= n {
        0
    } else {
        i + 1
    }
}

/// The first ready task among the next `steps` tasks after `from`, going
/// round the list.
pub open spec fn scan_ready(tasks: Seq<TaskView>, from: int, steps: nat) -> Option<int>
    decreases steps,
{
    if steps == 0 {
        None
    } else {
        let next = following(from, tasks.len() as int);
        if tasks[next].status == TaskStatus::Ready {
            Some(next)
        } else {
            scan_ready(tasks, next, (steps - 1) as nat)
        }
    }
}

/// The task that round-robin order picks after `from`: the first ready
/// task behind it, going round the whole list once and ending at `from`
/// itself.
pub open spec fn next_ready(tasks: Seq<TaskView>, from: int) -> Option<int> {
    scan_ready(tasks, from, tasks.len())
}

/// The counters after one more entry into syscall `id`: that counter is
/// one higher, unless it stands at its maximum; ids beyond the table are
/// not counted.
pub open spec fn counted(times: Seq<u32>, id: int) -> Seq<u32> {
    if 0 <= id < times.len() {
        times.update(
            id,
            if times[id] == u32::MAX {
                u32::MAX
            } else {
                (times[id] + 1) as u32
            },
        )
    } else {
        times
    }
}

impl TaskView {
    /// The task with another status.
    pub open spec fn with_status(self, status: TaskStatus) -> TaskView {
        TaskView { status, ..self }
    }

    /// The task put on the processor at clock reading `clock`: it is
    /// running, and the reading is kept if this is its first time.
    pub open spec fn scheduled(self, clock: usize) -> TaskView {
        TaskView {
            status: TaskStatus::Running,
            first_run: if self.first_run is Some {
                self.first_run
            } else {
                Some(clock)
            },
            ..self
        }
    }

    /// The task with another address space, or none.
    pub open spec fn with_space(self, space: Option<SpaceView>) -> TaskView {
        TaskView { space, ..self }
    }
}

impl ManagerView {
    /// Task `i` exists.
    pub open spec fn has(self, i: int) -> bool {
        0 <= i < self.tasks.len()
    }

    /// The free frames, without their order.
    pub open spec fn free_set(self) -> Set<usize> {
        self.free.to_set()
    }

    /// The address space of the running task.
    pub open spec fn current_space(self) -> SpaceView {
        self.tasks[self.current->0].space->0
    }

    /// The state with task `i` replaced.
    pub open spec fn with_task(self, i: int, task: TaskView) -> ManagerView {
        ManagerView { tasks: self.tasks.update(i, task), ..self }
    }

    /// The state with the address space of task `i` and the free list
    /// replaced.
    pub open spec fn with_space(self, i: int, space: SpaceView, free: Seq<usize>) -> ManagerView {
        ManagerView {
            tasks: self.tasks.update(i, self.tasks[i].with_space(Some(space))),
            free,
            ..self
        }
    }

    /// The state after the running task entered syscall `id`: its counter
    /// of that syscall is one higher.
    pub open spec fn entered(self, id: usize) -> ManagerView {
        let c = self.current->0;
        self.with_task(
            c,
            TaskView { syscall_times: counted(self.tasks[c].syscall_times, id as int), ..self.tasks[c] },
        )
    }

    /// The time on the clock since the running task was first scheduled.
    pub open spec fn running_time(self) -> int {
        self.clock - self.tasks[self.current->0].first_run->0
    }

    /// At most one task is running, and it is the current one; a task has
    /// an address space until it exits; every address space is well-formed;
    /// every frame is either free or held by exactly one address space;
    /// and no task was first scheduled later than now.
    pub open spec fn wf(self) -> bool {
        &&& self.total <= MAX_FRAMES
        &&& self.memory.len() == self.total * PAGE_SIZE
        &&& self.free.no_duplicates()
        &&& forall|k: int| 0 <= k < self.free.len() ==> (#[trigger] self.free[k]) < self.total
        &&& self.current matches Some(c) ==> self.has(c) && self.tasks[c].status
            == TaskStatus::Running
        &&& forall|i: int|
            self.has(i) && (#[trigger] self.tasks[i]).status == TaskStatus::Running
                ==> self.current == Some(i)
        &&& forall|i: int|
            self.has(i) ==> {
                let task = #[trigger] self.tasks[i];
                &&& task.syscall_times.len() == MAX_SYSCALL_NUM
                &&& task.status == TaskStatus::Exited <==> task.space is None
                &&& task.status == TaskStatus::Running ==> task.first_run is Some
                &&& task.first_run matches Some(t) ==> t <= self.clock
                &&& task.space matches Some(space) ==> space.wf() && space.fits(
                    self.total,
                    self.free_set(),
                )
            }
        &&& forall|i: int, j: int|
            self.has(i) && self.has(j) && i != j && (#[trigger] self.tasks[i]).space is Some && (
            #[trigger] self.tasks[j]).space is Some ==> self.tasks[i].space->0.owned().disjoint(
                self.tasks[j].space->0.owned(),
            )
    }

    /// The state after the running task yields: it is ready again, and
    /// the task that round-robin order picks after it is running. With no
    /// other ready task, the task that yielded runs on.
    pub open spec fn yielded(self) -> ManagerView {
        let c = self.current->0;
        let waiting = self.tasks.update(c, self.tasks[c].with_status(TaskStatus::Ready));
        let next = match next_ready(waiting, c) {
            Some(n) => n,
            None => c,
        };
        ManagerView {
            tasks: waiting.update(next, waiting[next].scheduled(self.clock)),
            current: Some(next),
            ..self
        }
    }

    /// What the exit of the running task makes of state `self`: the task
    /// is exited and has no address space, every frame it held is on the
    /// free list, and the task that round-robin order picks after it is
    /// running; with no ready task left, none is.
    pub open spec fn exited(self, after: ManagerView) -> bool {
        let c = self.current->0;
        let gone = self.tasks.update(
            c,
            self.tasks[c].with_status(TaskStatus::Exited).with_space(None),
        );
        &&& after.total == self.total
        &&& after.memory == self.memory
        &&& after.clock == self.clock
        &&& after.free == self.current_space().released_free(self.free)
        &&& after.free.to_set() == self.free_set().union(self.current_space().owned())
        &&& after.current == next_ready(gone, c)
        &&& after.tasks == match next_ready(gone, c) {
            Some(n) => gone.update(n, gone[n].scheduled(self.clock)),
            None => gone,
        }
    }
}

/// Entering a syscall changes one counter of the running task and
/// nothing else.
pub proof fn lemma_entered(state: ManagerView, id: usize)
    requires
        state.wf(),
        state.current is Some,
    ensures
        state.entered(id).current == state.current,
        state.entered(id).free == state.free,
        state.entered(id).total == state.total,
        state.entered(id).memory == state.memory,
        state.entered(id).clock == state.clock,
        state.entered(id).tasks.len() == state.tasks.len(),
        state.entered(id).current_space() == state.current_space(),
        state.entered(id).running_time() == state.running_time(),
        state.tasks[state.current->0].space is Some,
        state.tasks[state.current->0].first_run is Some,
        0 <= state.running_time() <= usize::MAX,
        0 <= state.current_space().brk <= ADDRESS_LIMIT,
{
}

/// Replacing one task's address space keeps the manager's state
/// well-formed when the frames only moved between that address space and
/// the free list.
proof fn lemma_space_replaced(pre: ManagerView, c: int, space: SpaceView, free: Seq<usize>)
    requires
        pre.wf(),
        pre.has(c),
        pre.tasks[c].space is Some,
        space.wf(),
        space.fits(pre.total, free.to_set()),
        free.no_duplicates(),
        forall|k: int| 0 <= k < free.len() ==> (#[trigger] free[k]) < pre.total,
        space.owned().union(free.to_set()) == pre.tasks[c].space->0.owned().union(pre.free_set()),
    ensures
        pre.with_space(c, space, free).wf(),
{
    let post = pre.with_space(c, space, free);
    let before = pre.tasks[c].space->0;
    lemma_owned_apart_from_free(space.mappings, space.tables, space.root, pre.total, free.to_set());
    assert forall|i: int| post.has(i) && i != c && (#[trigger] post.tasks[i]).space is Some implies {
        let other = post.tasks[i].space->0;
        &&& other.fits(post.total, post.free_set())
        &&& other.owned().disjoint(space.owned())
    } by {
        let other = pre.tasks[i].space->0;
        lemma_owned_apart_from_free(
            other.mappings,
            other.tables,
            other.root,
            pre.total,
            pre.free_set(),
        );
        assert(other.owned().disjoint(before.owned()));
        assert forall|f: usize| #[trigger] other.owned().contains(f) implies f < pre.total
            && !free.to_set().contains(f) && !space.owned().contains(f) by {
            if free.to_set().contains(f) || space.owned().contains(f) {
                assert(space.owned().union(free.to_set()).contains(f));
                assert(before.owned().union(pre.free_set()).contains(f));
            }
        }
        lemma_fit_from_owned(other.mappings, other.tables, other.root, pre.total, free.to_set());
    }
    assert forall|i: int, j: int|
        post.has(i) && post.has(j) && i != j && (#[trigger] post.tasks[i]).space is Some && (
        #[trigger] post.tasks[j]).space is Some implies post.tasks[i].space->0.owned().disjoint(
        post.tasks[j].space->0.owned(),
    ) by {
        if i != c && j != c {
            assert(pre.tasks[i].space is Some && pre.tasks[j].space is Some);
        }
    }
}

/// Letting go of one task's address space keeps the manager's state
/// well-formed when every frame it held went to the free list.
proof fn lemma_space_released(pre: ManagerView, c: int, free: Seq<usize>)
    requires
        pre.wf(),
        pre.has(c),
        pre.tasks[c].space is Some,
        free.no_duplicates(),
        forall|k: int| 0 <= k < free.len() ==> (#[trigger] free[k]) < pre.total,
        free.to_set() == pre.free_set().union(pre.tasks[c].space->0.owned()),
    ensures
        (ManagerView {
            tasks: pre.tasks.update(
                c,
                pre.tasks[c].with_status(TaskStatus::Exited).with_space(None),
            ),
            free,
            current: if pre.current == Some(c) {
                None
            } else {
                pre.current
            },
            ..pre
        }).wf(),
{
    let post = ManagerView {
        tasks: pre.tasks.update(c, pre.tasks[c].with_status(TaskStatus::Exited).with_space(None)),
        free,
        current: if pre.current == Some(c) {
            None
        } else {
            pre.current
        },
        ..pre
    };
    let gone = pre.tasks[c].space->0;
    assert forall|i: int| post.has(i) && (#[trigger] post.tasks[i]).space is Some implies post.tasks[i].space->0.fits(
        post.total,
        post.free_set(),
    ) by {
        let other = pre.tasks[i].space->0;
        lemma_owned_apart_from_free(
            other.mappings,
            other.tables,
            other.root,
            pre.total,
            pre.free_set(),
        );
        assert(other.owned().disjoint(gone.owned()));
        lemma_fit_from_owned(other.mappings, other.tables, other.root, pre.total, free.to_set());
    }
    assert forall|i: int, j: int|
        post.has(i) && post.has(j) && i != j && (#[trigger] post.tasks[i]).space is Some && (
        #[trigger] post.tasks[j]).space is Some implies post.tasks[i].space->0.owned().disjoint(
        post.tasks[j].space->0.owned(),
    ) by {
        assert(pre.tasks[i].space is Some && pre.tasks[j].space is Some);
    }
    assert forall|i: int|
        post.has(i) && (#[trigger] post.tasks[i]).status == TaskStatus::Running implies post.current
        == Some(i) by {
        assert(pre.tasks[i].status == TaskStatus::Running);
    }
}

/// Putting a ready task on the processor keeps the manager's state
/// well-formed when no task is running.
proof fn lemma_scheduled(pre: ManagerView, n: int)
    requires
        pre.wf(),
        pre.has(n),
        pre.tasks[n].status == TaskStatus::Ready,
        forall|i: int| pre.has(i) ==> (#[trigger] pre.tasks[i]).status != TaskStatus::Running,
    ensures
        (ManagerView {
            tasks: pre.tasks.update(n, pre.tasks[n].scheduled(pre.clock)),
            current: Some(n),
            ..pre
        }).wf(),
{
    let post = ManagerView {
        tasks: pre.tasks.update(n, pre.tasks[n].scheduled(pre.clock)),
        current: Some(n),
        ..pre
    };
    assert forall|i: int, j: int|
        post.has(i) && post.has(j) && i != j && (#[trigger] post.tasks[i]).space is Some && (
        #[trigger] post.tasks[j]).space is Some implies post.tasks[i].space->0.owned().disjoint(
        post.tasks[j].space->0.owned(),
    ) by {
        assert(pre.tasks[i].space is Some && pre.tasks[j].space is Some);
    }
    assert forall|i: int| post.has(i) implies {
        let task = #[trigger] post.tasks[i];
        &&& task.syscall_times.len() == MAX_SYSCALL_NUM
        &&& task.status == TaskStatus::Exited <==> task.space is None
        &&& task.status == TaskStatus::Running ==> task.first_run is Some
        &&& task.first_run matches Some(t) ==> t <= post.clock
        &&& task.space matches Some(space) ==> space.wf() && space.fits(post.total, post.free_set())
    } by {
        assert(pre.tasks[i].syscall_times.len() == MAX_SYSCALL_NUM);
    }
}

/// A scan that finds a task finds a ready one that exists.
pub proof fn lemma_scan_ready(tasks: Seq<TaskView>, from: int, steps: nat)
    requires
        0 <= from < tasks.len(),
    ensures
        scan_ready(tasks, from, steps) matches Some(n) ==> 0 <= n < tasks.len() && tasks[n].status
            == TaskStatus::Ready,
    decreases steps,
{
    if steps > 0 {
        lemma_scan_ready(tasks, following(from, tasks.len() as int), (steps - 1) as nat);
    }
}

/// A scan over `steps` tasks that finds none passed no ready task.
pub proof fn lemma_scan_none(tasks: Seq<TaskView>, from: int, steps: nat, k: nat)
    requires
        0 <= from < tasks.len(),
        scan_ready(tasks, from, steps) is None,
        1 <= k <= steps,
    ensures
        tasks[walk(from, tasks.len() as int, k)].status != TaskStatus::Ready,
        0 <= walk(from, tasks.len() as int, k) < tasks.len(),
    decreases steps,
{
    let next = following(from, tasks.len() as int);
    if k > 1 {
        lemma_scan_none(tasks, next, (steps - 1) as nat, (k - 1) as nat);
    } else {
        assert(walk(next, tasks.len() as int, 0) == next);
    }
}

/// The index reached from `from` after `k` steps round `n` tasks.
pub open spec fn walk(from: int, n: int, k: nat) -> int
    decreases k,
{
    if k == 0 {
        from
    } else {
        walk(following(from, n), n, (k - 1) as nat)
    }
}

/// Walking once round the list ends where it began.
pub proof fn lemma_walk_round(from: int, n: int, k: nat)
    requires
        0 <= from < n,
    ensures
        0 <= walk(from, n, k) < n,
        from + k < n ==> walk(from, n, k) == from + k,
        n <= from + k < 2 * n ==> walk(from, n, k) == from + k - n,
    decreases k,
{
    if k > 0 {
        lemma_walk_round(following(from, n), n, (k - 1) as nat);
    }
}

struct TaskControlBlock {
    status: TaskStatus,
    space: Option<AddressSpace>,
    syscall_times: [u32; MAX_SYSCALL_NUM],
    first_run: Option<usize>,
    context: TaskContext,
}

impl TaskControlBlock {
    spec fn view(&self) -> TaskView {
        TaskView {
            status: self.status,
            space: match self.space {
                Some(space) => Some(space@),
                None => None,
            },
            syscall_times: self.syscall_times@,
            first_run: self.first_run,
            context: self.context,
        }
    }

    spec fn wf(&self) -> bool {
        self.space matches Some(space) ==> space.wf()
    }
}

/// The registry of all tasks, the scheduler, and the machine's frames and
/// memory. Every change to a task goes through it.
pub struct TaskManager {
    tasks: Vec<TaskControlBlock>,
    current: Option<usize>,
    frames: FrameAllocator,
    memory: PhysMemory,
    clock: usize,
}

impl View for TaskManager {
    type V = ManagerView;

    closed spec fn view(&self) -> ManagerView {
        ManagerView {
            tasks: Seq::new(self.tasks@.len(), |i: int| self.tasks@[i].view()),
            current: match self.current {
                Some(c) => Some(c as int),
                None => None,
            },
            total: self.frames.total(),
            free: self.frames.free_list(),
            memory: self.memory@,
            clock: self.clock,
        }
    }
}

impl TaskManager {
    /// The parts are sound and the state they show is well-formed.
    pub closed spec fn wf(&self) -> bool {
        &&& self.frames.wf()
        &&& self.memory.wf()
        &&& forall|i: int| 0 <= i < self.tasks@.len() ==> (#[trigger] self.tasks@[i]).wf()
        &&& self@.wf()
    }

    /// A well-formed manager shows a well-formed state.
    pub proof fn lemma_wf(&self)
        requires
            self.wf(),
        ensures
            self@.wf(),
    {
    }

    /// A manager for a machine with `total_frames` frames, all free and
    /// every byte of them zero, with no task and the clock at zero; `None`
    /// if that is more than `MAX_FRAMES` frames.
    pub fn new(total_frames: usize) -> (r: Option<TaskManager>)
        ensures
            r is Some <==> total_frames <= MAX_FRAMES,
            r matches Some(manager) ==> {
                &&& manager.wf()
                &&& manager@.tasks.len() == 0
                &&& manager@.current is None
                &&& manager@.total == total_frames
                &&& manager@.free == Seq::new(
                    total_frames as nat,
                    |i: int| (total_frames - 1 - i) as usize,
                )
                &&& manager@.memory.len() == total_frames * PAGE_SIZE
                &&& forall|pa: int| 0 <= pa < manager@.memory.len() ==> manager@.memory[pa] == 0
                &&& manager@.clock == 0
            },
    {
        let frames = match FrameAllocator::new(total_frames) {
            Some(frames) => frames,
            None => {
                return None;
            },
        };
        let memory = match PhysMemory::new(total_frames) {
            Some(memory) => memory,
            None => {
                return None;
            },
        };
        let manager = TaskManager { tasks: Vec::new(), current: None, frames, memory, clock: 0 };
        Some(manager)
    }

    /// Number of tasks ever added.
    pub fn task_count(&self) -> (n: usize)
        ensures
            n == self@.tasks.len(),
    {
        proof {
            assert(self@.tasks.len() == self.tasks@.len());
        }
        self.tasks.len()
    }

    /// The id of the running task, if one is running.
    pub fn current_task(&self) -> (r: Option<usize>)
        ensures
            r matches Some(c) ==> self@.current == Some(c as int),
            r is None ==> self@.current is None,
    {
        self.current
    }

    /// The status of task `task`, if it exists.
    pub fn status(&self, task: usize) -> (r: Option<TaskStatus>)
        ensures
            r == if self@.has(task as int) {
                Some(self@.tasks[task as int].status)
            } else {
                None
            },
    {
        if task < self.tasks.len() {
            Some(self.tasks[task].status)
        } else {
            None
        }
    }

    /// Number of free frames.
    pub fn free_frames(&self) -> (n: usize)
        ensures
            n == self@.free.len(),
    {
        self.frames.available()
    }

    /// The latest clock reading, in microseconds.
    pub fn now(&self) -> (t: usize)
        ensures
            t == self@.clock,
    {
        self.clock
    }

    /// Takes a reading of the monotonic microsecond clock. A reading that
    /// lies before the latest one is ignored, so the manager's clock never
    /// runs backwards.
    pub fn advance_clock(&mut self, now_us: usize)
        requires
            old(self).wf(),
        ensures
            final(self).wf(),
            final(self)@ == (ManagerView {
                clock: if now_us > old(self)@.clock {
                    now_us
                } else {
                    old(self)@.clock
                },
                ..old(self)@
            }),
    {
        if now_us > self.clock {
            self.clock = now_us;
        }
        proof {
            assert(self@.tasks =~= old(self)@.tasks);
        }
    }

    /// Adds a task: it gets an address space of its own with an empty
    /// heap at `heap_bottom`, starts out ready with all counters at zero,
    /// and resumes with `context` when first scheduled. Its id is returned.
    ///
    /// Fails, changing nothing, with `InvalidAddress` if `heap_bottom` is
    /// not page-aligned or lies beyond the address space, and with
    /// `OutOfMemory` if no frame is free for the page table.
    pub fn add_task(&mut self, heap_bottom: usize, context: TaskContext) -> (r: Result<usize, MmapError>)
        requires
            old(self).wf(),
        ensures
            final(self).wf(),
            r is Ok <==> page_aligned(heap_bottom as int) && heap_bottom
                <= ADDRESS_LIMIT && old(self)@.free.len() > 0,
            r matches Err(e) ==> final(self)@ == old(self)@ && e == if !page_aligned(
                heap_bottom as int,
            ) || heap_bottom > ADDRESS_LIMIT {
                MmapError::InvalidAddress
            } else {
                MmapError::OutOfMemory
            },
            r matches Ok(id) ==> {
                &&& id == old(self)@.tasks.len()
                &&& final(self)@.tasks.len() == id + 1
                &&& final(self)@.tasks.subrange(0, id as int) == old(self)@.tasks
                &&& final(self)@.tasks[id as int].status == TaskStatus::Ready
                &&& final(self)@.tasks[id as int].space is Some
                &&& final(self)@.tasks[id as int].space->0.fresh(old(self)@.free.last(), heap_bottom)
                &&& final(self)@.tasks[id as int].syscall_times == Seq::new(
                    MAX_SYSCALL_NUM as nat,
                    |i: int| 0u32,
                )
                &&& final(self)@.tasks[id as int].first_run is None
                &&& final(self)@.tasks[id as int].context == context
                &&& final(self)@.free == old(self)@.free.drop_last()
                &&& final(self)@.current == old(self)@.current
                &&& final(self)@.total == old(self)@.total
                &&& final(self)@.memory == old(self)@.memory
                &&& final(self)@.clock == old(self)@.clock
            },
    {
        let space = match AddressSpace::new(&mut self.frames, heap_bottom) {
            Ok(space) => space,
            Err(e) => {
                proof {
                    assert(self@.tasks =~= old(self)@.tasks);
                }
                return Err(e);
            },
        };
        let id: usize = self.tasks.len();
        let ghost view = space@;
        let block = TaskControlBlock {
            status: TaskStatus::Ready,
            space: Some(space),
            syscall_times: [0u32; MAX_SYSCALL_NUM],
            first_run: None,
            context,
        };
        self.tasks.push(block);
        proof {
            let pre = old(self)@;
            let post = self@;
            assert(post.tasks.subrange(0, id as int) =~= pre.tasks);
            assert(post.tasks[id as int].syscall_times =~= Seq::new(
                MAX_SYSCALL_NUM as nat,
                |i: int| 0u32,
            ));
            assert forall|i: int| 0 <= i < id implies post.tasks[i] == pre.tasks[i] by {}
            assert(view.owned() =~= set![view.root]);
            assert(pre.free_set().contains(view.root)) by {
                assert(pre.free[pre.free.len() - 1] == view.root);
            }
            assert forall|i: int| post.has(i) implies {
                let task = #[trigger] post.tasks[i];
                &&& task.syscall_times.len() == MAX_SYSCALL_NUM
                &&& task.status == TaskStatus::Exited <==> task.space is None
                &&& task.status == TaskStatus::Running ==> task.first_run is Some
                &&& task.first_run matches Some(t) ==> t <= post.clock
                &&& task.space matches Some(space) ==> space.wf() && space.fits(
                    post.total,
                    post.free_set(),
                )
            } by {
                if i < id {
                    assert(pre.tasks[i].syscall_times.len() == MAX_SYSCALL_NUM);
                } else {
                    self.tasks@[i].space->0.lemma_wf();
                }
            }
            assert forall|i: int, j: int|
                post.has(i) && post.has(j) && i != j && (#[trigger] post.tasks[i]).space is Some && (
                #[trigger] post.tasks[j]).space is Some implies post.tasks[i].space->0.owned().disjoint(
                post.tasks[j].space->0.owned(),
            ) by {
                if i < id && j < id {
                    assert(pre.tasks[i].space is Some && pre.tasks[j].space is Some);
                } else {
                    let k = if i < id {
                        i
                    } else {
                        j
                    };
                    let other = pre.tasks[k].space->0;
                    lemma_owned_apart_from_free(
                        other.mappings,
                        other.tables,
                        other.root,
                        pre.total,
                        pre.free_set(),
                    );
                }
            }
            assert forall|i: int|
                post.has(i) && (#[trigger] post.tasks[i]).status == TaskStatus::Running implies post.current
                == Some(i) by {
                assert(pre.tasks[i].status == TaskStatus::Running);
            }
        }
        Ok(id)
    }

    /// The first ready task behind `from` in round-robin order, ending at
    /// `from` itself.
    fn find_next_ready(&self, from: usize) -> (r: Option<usize>)
        requires
            from < self.tasks@.len(),
        ensures
            r matches Some(n) ==> next_ready(self@.tasks, from as int) == Some(n as int) && n
                < self.tasks@.len(),
            r is None ==> next_ready(self@.tasks, from as int) is None,
    {
        let count: usize = self.tasks.len();
        let mut at: usize = from;
        let mut steps: usize = count;
        while steps > 0
            invariant
                at < count,
                count == self.tasks@.len(),
                self@.tasks.len() == count,
                next_ready(self@.tasks, from as int) == scan_ready(self@.tasks, at as int, steps as nat),
            decreases steps,
        {
            let next: usize = if at + 1 >= count {
                0
            } else {
                at + 1
            };
            if self.tasks[next].status == TaskStatus::Ready {
                return Some(next);
            }
            at = next;
            steps = steps - 1;
        }
        None
    }

    /// Starts scheduling: puts the first ready task on the processor and
    /// returns its id. With no ready task, or with a task running
    /// already, nothing changes and the running task, if any, is returned.
    pub fn run_first_task(&mut self) -> (r: Option<usize>)
        requires
            old(self).wf(),
        ensures
            final(self).wf(),
            r matches Some(n) ==> final(self)@.current == Some(n as int),
            r is None ==> final(self)@.current is None,
            old(self)@.current is Some || old(self)@.tasks.len() == 0 ==> final(self)@ == old(self)@,
            old(self)@.current is None && old(self)@.tasks.len() > 0 ==> final(self)@ == match next_ready(
                old(self)@.tasks,
                old(self)@.tasks.len() - 1,
            ) {
                Some(n) => ManagerView {
                    tasks: old(self)@.tasks.update(n, old(self)@.tasks[n].scheduled(old(self)@.clock)),
                    current: Some(n),
                    ..old(self)@
                },
                None => old(self)@,
            },
    {
        if self.current.is_some() || self.tasks.len() == 0 {
            return self.current;
        }
        let last: usize = self.tasks.len() - 1;
        match self.find_next_ready(last) {
            None => None,
            Some(next) => {
                proof {
                    lemma_scan_ready(self@.tasks, last as int, self@.tasks.len());
                }
                self.put_on_processor(next);
                Some(next)
            },
        }
    }

    /// Makes ready task `next` the running one.
    fn put_on_processor(&mut self, next: usize)
        requires
            old(self).wf(),
            old(self)@.has(next as int),
            old(self)@.tasks[next as int].status == TaskStatus::Ready,
            old(self)@.current is None,
        ensures
            final(self).wf(),
            final(self)@ == (ManagerView {
                tasks: old(self)@.tasks.update(
                    next as int,
                    old(self)@.tasks[next as int].scheduled(old(self)@.clock),
                ),
                current: Some(next as int),
                ..old(self)@
            }),
    {
        self.tasks[next].status = TaskStatus::Running;
        if self.tasks[next].first_run.is_none() {
            self.tasks[next].first_run = Some(self.clock);
        }
        self.current = Some(next);
        proof {
            let pre = old(self)@;
            assert(self@.tasks =~= pre.tasks.update(
                next as int,
                pre.tasks[next as int].scheduled(pre.clock),
            ));
            assert forall|i: int| pre.has(i) implies (#[trigger] pre.tasks[i]).status
                != TaskStatus::Running by {}
            lemma_scheduled(pre, next as int);
            assert forall|i: int| 0 <= i < self.tasks@.len() implies (#[trigger] self.tasks@[i]).wf() by {
                assert(old(self).tasks@[i].wf());
            }
        }
    }

    /// Takes the running task off the processor and runs the next ready
    /// task in round-robin order; with no other ready task, the same task
    /// runs on. Returns the id of the task that runs now.
    pub fn suspend_current_and_run_next(&mut self) -> (next: usize)
        requires
            old(self).wf(),
            old(self)@.current is Some,
        ensures
            final(self).wf(),
            final(self)@ == old(self)@.yielded(),
            final(self)@.current == Some(next as int),
    {
        let current: usize = match self.current {
            Some(current) => current,
            None => 0,
        };
        self.tasks[current].status = TaskStatus::Ready;
        self.current = None;
        proof {
            let pre = old(self)@;
            let mid = self@;
            assert(mid.tasks =~= pre.tasks.update(
                current as int,
                pre.tasks[current as int].with_status(TaskStatus::Ready),
            ));
            assert forall|i: int| 0 <= i < self.tasks@.len() implies (#[trigger] self.tasks@[i]).wf() by {
                assert(old(self).tasks@[i].wf());
            }
            assert forall|i: int, j: int|
                mid.has(i) && mid.has(j) && i != j && (#[trigger] mid.tasks[i]).space is Some && (
                #[trigger] mid.tasks[j]).space is Some implies mid.tasks[i].space->0.owned().disjoint(
                mid.tasks[j].space->0.owned(),
            ) by {
                assert(pre.tasks[i].space is Some && pre.tasks[j].space is Some);
            }
            assert forall|i: int| mid.has(i) implies {
                let task = #[trigger] mid.tasks[i];
                &&& task.syscall_times.len() == MAX_SYSCALL_NUM
                &&& task.status == TaskStatus::Exited <==> task.space is None
                &&& task.status == TaskStatus::Running ==> task.first_run is Some
                &&& task.first_run matches Some(t) ==> t <= mid.clock
                &&& task.space matches Some(space) ==> space.wf() && space.fits(
                    mid.total,
                    mid.free_set(),
                )
                &&& task.status != TaskStatus::Running
            } by {
                assert(pre.tasks[i].syscall_times.len() == MAX_SYSCALL_NUM);
            }
        }
        let next: usize = match self.find_next_ready(current) {
            Some(next) => next,
            None => current,
        };
        proof {
            lemma_scan_ready(self@.tasks, current as int, self@.tasks.len());
            lemma_round_reaches_start(self@.tasks, current as int);
        }
        self.put_on_processor(next);
        next
    }

    /// Ends the running task: it is exited for good, its address space is
    /// given up and every frame it held goes back to the allocator. Then
    /// the next ready task in round-robin order runs and its id is
    /// returned. With no ready task left the scheduler halts: no task is
    /// running, and `None` is returned.
    pub fn exit_current_and_run_next(&mut self) -> (next: Option<usize>)
        requires
            old(self).wf(),
            old(self)@.current is Some,
        ensures
            final(self).wf(),
            old(self)@.exited(final(self)@),
            next matches Some(n) ==> final(self)@.current == Some(n as int),
            next is None ==> final(self)@.current is None,
    {
        let current: usize = match self.current {
            Some(current) => current,
            None => 0,
        };
        let ghost pre = old(self)@;
        proof {
            assert(old(self).tasks@[current as int].wf());
            assert(pre.tasks[current as int].space is Some);
        }
        match self.tasks[current].space.take() {
            Some(space) => {
                space.release(&mut self.frames);
            },
            None => {},
        }
        self.tasks[current].status = TaskStatus::Exited;
        self.current = None;
        proof {
            let mid = self@;
            assert(mid.tasks =~= pre.tasks.update(
                current as int,
                pre.tasks[current as int].with_status(TaskStatus::Exited).with_space(None),
            ));
            lemma_space_released(pre, current as int, mid.free);
            assert forall|i: int| 0 <= i < self.tasks@.len() implies (#[trigger] self.tasks@[i]).wf() by {
                assert(old(self).tasks@[i].wf());
            }
            assert forall|i: int| mid.has(i) implies (#[trigger] mid.tasks[i]).status
                != TaskStatus::Running by {
                if i != current {
                    assert(pre.tasks[i].status != TaskStatus::Running);
                }
            }
        }
        match self.find_next_ready(current) {
            None => None,
            Some(next) => {
                proof {
                    lemma_scan_ready(self@.tasks, current as int, self@.tasks.len());
                }
                self.put_on_processor(next);
                Some(next)
            },
        }
    }

    /// Counts one entry of the running task into syscall `id`. The counter
    /// stops at its maximum; an id beyond the table is not counted.
    pub fn record_syscall(&mut self, id: usize)
        requires
            old(self).wf(),
            old(self)@.current is Some,
        ensures
            final(self).wf(),
            final(self)@ == old(self)@.entered(id),
    {
        let current: usize = match self.current {
            Some(current) => current,
            None => 0,
        };
        if id < MAX_SYSCALL_NUM {
            let seen: u32 = self.tasks[current].syscall_times[id];
            if seen < u32::MAX {
                self.tasks[current].syscall_times[id] = seen + 1;
            }
        }
        proof {
            let pre = old(self)@;
            let post = self@;
            let c = current as int;
            assert(post.tasks[c].syscall_times =~= counted(pre.tasks[c].syscall_times, id as int));
            assert(post.tasks =~= pre.tasks.update(
                c,
                TaskView {
                    syscall_times: counted(pre.tasks[c].syscall_times, id as int),
                    ..pre.tasks[c]
                },
            ));
            assert forall|i: int| 0 <= i < self.tasks@.len() implies (#[trigger] self.tasks@[i]).wf() by {
                assert(old(self).tasks@[i].wf());
            }
            assert forall|i: int, j: int|
                post.has(i) && post.has(j) && i != j && (#[trigger] post.tasks[i]).space is Some && (
                #[trigger] post.tasks[j]).space is Some implies post.tasks[i].space->0.owned().disjoint(
                post.tasks[j].space->0.owned(),
            ) by {
                assert(pre.tasks[i].space is Some && pre.tasks[j].space is Some);
            }
            assert forall|i: int| post.has(i) implies {
                let task = #[trigger] post.tasks[i];
                &&& task.syscall_times.len() == MAX_SYSCALL_NUM
                &&& task.status == TaskStatus::Exited <==> task.space is None
                &&& task.status == TaskStatus::Running ==> task.first_run is Some
                &&& task.first_run matches Some(t) ==> t <= post.clock
                &&& task.space matches Some(space) ==> space.wf() && space.fits(
                    post.total,
                    post.free_set(),
                )
            } by {
                assert(pre.tasks[i].syscall_times.len() == MAX_SYSCALL_NUM);
            }
            assert forall|i: int|
                post.has(i) && (#[trigger] post.tasks[i]).status == TaskStatus::Running implies post.current
                == Some(i) by {
                assert(pre.tasks[i].status == TaskStatus::Running);
            }
        }
    }

    /// A snapshot of the running task: its status, its syscall counters,
    /// and the time that has passed on the clock since it was first
    /// scheduled, whether it was on the processor or not.
    pub fn get_current_taskinfo(&self) -> (r: (TaskStatus, [u32; MAX_SYSCALL_NUM], usize))
        requires
            self.wf(),
            self@.current is Some,
        ensures
            r.0 == TaskStatus::Running,
            r.1@ == self@.tasks[self@.current->0].syscall_times,
            r.2 == self@.running_time(),
    {
        let current: usize = match self.current {
            Some(current) => current,
            None => 0,
        };
        let block = &self.tasks[current];
        proof {
            assert(self@.tasks[current as int] == block.view());
        }
        let since: usize = match block.first_run {
            Some(first) => self.clock - first,
            None => 0,
        };
        (block.status, block.syscall_times, since)
    }

    /// The physical address that virtual address `va` of the running task
    /// translates to, or `None` if its page is not mapped.
    pub fn cur_task_translate(&self, va: usize) -> (r: Option<usize>)
        requires
            self.wf(),
            self@.current is Some,
        ensures
            r is Some <==> translation(self@.current_space().mappings, va as int) is Some,
            r matches Some(pa) ==> translation(self@.current_space().mappings, va as int) == Some(
                pa as int,
            ),
    {
        let current: usize = match self.current {
            Some(current) => current,
            None => 0,
        };
        proof {
            assert(self@.tasks[current as int] == self.tasks@[current as int].view());
            assert(self.tasks@[current as int].wf());
        }
        match &self.tasks[current].space {
            Some(space) => space.translate(va),
            None => None,
        }
    }

    /// Maps `len` bytes at `start` with access bits `port` in the running
    /// task's address space. Returns 0 when the request was carried out
    /// and -1 when the address space refused it, whatever the reason; a
    /// refused request changes nothing.
    pub fn mmap_current_task(&mut self, start: usize, len: usize, port: usize) -> (r: isize)
        requires
            old(self).wf(),
            old(self)@.current is Some,
        ensures
            final(self).wf(),
            r == 0 || r == -1,
            r == 0 <==> old(self)@.current_space().mmap_failure(
                old(self)@.free.len(),
                start,
                len,
                port,
            ) is None,
            r == -1 ==> final(self)@ == old(self)@,
            r == 0 ==> {
                &&& final(self)@ == old(self)@.with_space(
                    old(self)@.current->0,
                    final(self)@.current_space(),
                    final(self)@.free,
                )
                &&& old(self)@.current_space().mmapped(
                    old(self)@.free,
                    start,
                    len,
                    port,
                    final(self)@.current_space(),
                    final(self)@.free,
                )
            },
    {
        let current: usize = match self.current {
            Some(current) => current,
            None => 0,
        };
        let ghost pre = old(self)@;
        proof {
            assert(old(self).tasks@[current as int].wf());
            assert(pre.tasks[current as int] == old(self).tasks@[current as int].view());
        }
        let mut space = match self.tasks[current].space.take() {
            Some(space) => space,
            None => {
                return -1;
            },
        };
        let outcome = space.mmap(&mut self.frames, start, len, port);
        proof {
            space.lemma_wf();
        }
        let ghost after = space@;
        self.tasks[current].space = Some(space);
        proof {
            self.lemma_space_put_back(old(self), current, after);
            if outcome is Err {
                assert(self@.tasks =~= pre.tasks);
            }
        }
        match outcome {
            Ok(()) => 0,
            Err(_) => -1,
        }
    }

    /// Unmaps `len` bytes at `start` in the running task's address space.
    /// Returns 0 when the request was carried out and -1 when the address
    /// space refused it, whatever the reason; a refused request changes
    /// nothing.
    pub fn munmap_current_task(&mut self, start: usize, len: usize) -> (r: isize)
        requires
            old(self).wf(),
            old(self)@.current is Some,
        ensures
            final(self).wf(),
            r == 0 || r == -1,
            r == 0 <==> old(self)@.current_space().munmap_failure(start, len) is None,
            r == -1 ==> final(self)@ == old(self)@,
            r == 0 ==> {
                &&& final(self)@ == old(self)@.with_space(
                    old(self)@.current->0,
                    final(self)@.current_space(),
                    final(self)@.free,
                )
                &&& old(self)@.current_space().munmapped(
                    old(self)@.free,
                    start,
                    len,
                    final(self)@.current_space(),
                    final(self)@.free,
                )
            },
    {
        let current: usize = match self.current {
            Some(current) => current,
            None => 0,
        };
        let ghost pre = old(self)@;
        proof {
            assert(old(self).tasks@[current as int].wf());
            assert(pre.tasks[current as int] == old(self).tasks@[current as int].view());
        }
        let mut space = match self.tasks[current].space.take() {
            Some(space) => space,
            None => {
                return -1;
            },
        };
        let outcome = space.munmap(&mut self.frames, start, len);
        proof {
            space.lemma_wf();
        }
        let ghost after = space@;
        self.tasks[current].space = Some(space);
        proof {
            self.lemma_space_put_back(old(self), current, after);
            if outcome is Err {
                assert(self@.tasks =~= pre.tasks);
            }
        }
        match outcome {
            Ok(()) => 0,
            Err(_) => -1,
        }
    }

    /// Moves the program break of the running task by `size` bytes and
    /// returns the break as it was before, or `None`, changing nothing, if
    /// the address space cannot move it.
    pub fn change_program_brk(&mut self, size: i32) -> (r: Option<usize>)
        requires
            old(self).wf(),
            old(self)@.current is Some,
        ensures
            final(self).wf(),
            r is None <==> old(self)@.current_space().break_failure(
                old(self)@.free.len(),
                size as int,
            ),
            r is None ==> final(self)@ == old(self)@,
            r matches Some(previous) ==> {
                &&& previous == old(self)@.current_space().brk
                &&& final(self)@ == old(self)@.with_space(
                    old(self)@.current->0,
                    final(self)@.current_space(),
                    final(self)@.free,
                )
                &&& old(self)@.current_space().break_adjusted(
                    old(self)@.free,
                    size as int,
                    final(self)@.current_space(),
                    final(self)@.free,
                )
            },
    {
        let current: usize = match self.current {
            Some(current) => current,
            None => 0,
        };
        let ghost pre = old(self)@;
        proof {
            assert(old(self).tasks@[current as int].wf());
            assert(pre.tasks[current as int] == old(self).tasks@[current as int].view());
        }
        let mut space = match self.tasks[current].space.take() {
            Some(space) => space,
            None => {
                return None;
            },
        };
        let outcome = space.adjust_break(&mut self.frames, size as isize);
        proof {
            space.lemma_wf();
        }
        let ghost after = space@;
        self.tasks[current].space = Some(space);
        proof {
            self.lemma_space_put_back(old(self), current, after);
            if outcome is None {
                assert(self@.tasks =~= pre.tasks);
            }
        }
        outcome
    }

    /// Stores `data` at virtual address `va` of the running task, page
    /// by page. Tells `false`, storing nothing, unless every byte of the
    /// range lies in a mapped page.
    pub fn write_user(&mut self, va: usize, data: &Vec<u8>) -> (done: bool)
        requires
            old(self).wf(),
            old(self)@.current is Some,
        ensures
            final(self).wf(),
            done == reachable(
                old(self)@.current_space().mappings,
                old(self)@.memory.len() as int,
                va as int,
                data@.len() as int,
            ),
            final(self)@ == (ManagerView { memory: final(self)@.memory, ..old(self)@ }),
            done ==> stored(
                old(self)@.memory,
                final(self)@.memory,
                old(self)@.current_space().mappings,
                va as int,
                data@,
                data@.len() as int,
            ),
            !done ==> final(self)@.memory == old(self)@.memory,
    {
        let current: usize = match self.current {
            Some(current) => current,
            None => 0,
        };
        proof {
            assert(self@.tasks[current as int] == self.tasks@[current as int].view());
            assert(self.tasks@[current as int].wf());
        }
        let done = match &self.tasks[current].space {
            Some(space) => self.memory.store(space, va, data),
            None => false,
        };
        proof {
            assert(self@.tasks =~= old(self)@.tasks);
        }
        done
    }

    /// The `len` bytes at virtual address `va` of the running task, read
    /// page by page, or `None` unless every byte of the range lies in a
    /// mapped page.
    pub fn read_user(&self, va: usize, len: usize) -> (r: Option<Vec<u8>>)
        requires
            self.wf(),
            self@.current is Some,
        ensures
            r is Some <==> reachable(
                self@.current_space().mappings,
                self@.memory.len() as int,
                va as int,
                len as int,
            ),
            r matches Some(bytes) ==> bytes@ == bytes_at(
                self@.memory,
                self@.current_space().mappings,
                va as int,
                len as int,
            ),
    {
        let current: usize = match self.current {
            Some(current) => current,
            None => 0,
        };
        proof {
            assert(self@.tasks[current as int] == self.tasks@[current as int].view());
            assert(self.tasks@[current as int].wf());
        }
        match &self.tasks[current].space {
            Some(space) => self.memory.load(space, va, len),
            None => None,
        }
    }

    /// Places `len` bytes of program text or data at `start`, with access
    /// bits `port`, in the address space of task `task`, which has not
    /// exited. The request is checked as a mapping request of the task
    /// itself would be; a refused request changes nothing.
    pub fn load_code(&mut self, task: usize, start: usize, len: usize, port: usize) -> (r: Result<
        (),
        MmapError,
    >)
        requires
            old(self).wf(),
            old(self)@.has(task as int),
            old(self)@.tasks[task as int].space is Some,
        ensures
            final(self).wf(),
            r == match old(self)@.tasks[task as int].space->0.mmap_failure(
                old(self)@.free.len(),
                start,
                len,
                port,
            ) {
                Some(e) => Err::<(), MmapError>(e),
                None => Ok(()),
            },
            r is Err ==> final(self)@ == old(self)@,
            r is Ok ==> {
                &&& final(self)@.tasks[task as int].space is Some
                &&& final(self)@ == old(self)@.with_space(
                    task as int,
                    final(self)@.tasks[task as int].space->0,
                    final(self)@.free,
                )
                &&& old(self)@.tasks[task as int].space->0.region_added(
                    old(self)@.free,
                    SpaceView::requested(start, len, port, RegionKind::Code),
                    final(self)@.tasks[task as int].space->0,
                    final(self)@.free,
                )
            },
    {
        let ghost pre = old(self)@;
        proof {
            assert(old(self).tasks@[task as int].wf());
            assert(pre.tasks[task as int] == old(self).tasks@[task as int].view());
        }
        let mut space = match self.tasks[task].space.take() {
            Some(space) => space,
            None => {
                return Err(MmapError::InvalidAddress);
            },
        };
        let outcome = space.map_code(&mut self.frames, start, len, port);
        proof {
            space.lemma_wf();
        }
        let ghost after = space@;
        self.tasks[task].space = Some(space);
        proof {
            self.lemma_space_put_back(old(self), task, after);
            if outcome is Err {
                assert(self@.tasks =~= pre.tasks);
            }
        }
        outcome
    }

    /// Places a user stack of `len` bytes at `start`, with access bits
    /// `port`, in the address space of task `task`, which has not exited.
    /// The request is checked as a mapping request of the task itself
    /// would be; a refused request changes nothing.
    pub fn load_stack(&mut self, task: usize, start: usize, len: usize, port: usize) -> (r: Result<
        (),
        MmapError,
    >)
        requires
            old(self).wf(),
            old(self)@.has(task as int),
            old(self)@.tasks[task as int].space is Some,
        ensures
            final(self).wf(),
            r == match old(self)@.tasks[task as int].space->0.mmap_failure(
                old(self)@.free.len(),
                start,
                len,
                port,
            ) {
                Some(e) => Err::<(), MmapError>(e),
                None => Ok(()),
            },
            r is Err ==> final(self)@ == old(self)@,
            r is Ok ==> {
                &&& final(self)@.tasks[task as int].space is Some
                &&& final(self)@ == old(self)@.with_space(
                    task as int,
                    final(self)@.tasks[task as int].space->0,
                    final(self)@.free,
                )
                &&& old(self)@.tasks[task as int].space->0.region_added(
                    old(self)@.free,
                    SpaceView::requested(start, len, port, RegionKind::Stack),
                    final(self)@.tasks[task as int].space->0,
                    final(self)@.free,
                )
            },
    {
        let ghost pre = old(self)@;
        proof {
            assert(old(self).tasks@[task as int].wf());
            assert(pre.tasks[task as int] == old(self).tasks@[task as int].view());
        }
        let mut space = match self.tasks[task].space.take() {
            Some(space) => space,
            None => {
                return Err(MmapError::InvalidAddress);
            },
        };
        let outcome = space.map_stack(&mut self.frames, start, len, port);
        proof {
            space.lemma_wf();
        }
        let ghost after = space@;
        self.tasks[task].space = Some(space);
        proof {
            self.lemma_space_put_back(old(self), task, after);
            if outcome is Err {
                assert(self@.tasks =~= pre.tasks);
            }
        }
        outcome
    }

    /// The registers that task `task` resumes with, if the task exists.
    pub fn context(&self, task: usize) -> (r: Option<TaskContext>)
        ensures
            r == if self@.has(task as int) {
                Some(self@.tasks[task as int].context)
            } else {
                None
            },
    {
        if task < self.tasks.len() {
            Some(self.tasks[task].context)
        } else {
            None
        }
    }

    /// Tells whether task `task` exists and has not exited, so that it
    /// still has an address space.
    pub fn is_live(&self, task: usize) -> (live: bool)
        requires
            self.wf(),
        ensures
            live == (self@.has(task as int) && self@.tasks[task as int].space is Some),
    {
        task < self.tasks.len() && self.tasks[task].status != TaskStatus::Exited
    }

    /// The program break of the running task.
    pub fn current_break(&self) -> (brk: usize)
        requires
            self.wf(),
            self@.current is Some,
        ensures
            brk == self@.current_space().brk,
    {
        let current: usize = match self.current {
            Some(current) => current,
            None => 0,
        };
        proof {
            assert(self@.tasks[current as int] == self.tasks@[current as int].view());
        }
        match &self.tasks[current].space {
            Some(space) => space.program_break(),
            None => 0,
        }
    }

    /// Number of regions, the heap included, of the running task.
    pub fn current_region_count(&self) -> (n: usize)
        requires
            self.wf(),
            self@.current is Some,
        ensures
            n == self@.current_space().regions.len(),
    {
        let current: usize = match self.current {
            Some(current) => current,
            None => 0,
        };
        proof {
            assert(self@.tasks[current as int] == self.tasks@[current as int].view());
        }
        match &self.tasks[current].space {
            Some(space) => space.region_count(),
            None => 0,
        }
    }

    /// After the address space of task `current` was taken out of a
    /// well-formed manager `before`, changed so that frames only moved
    /// between it and the free list, and put back, the manager is
    /// well-formed and shows the new address space in place of the old.
    proof fn lemma_space_put_back(&self, before: &TaskManager, current: usize, after: SpaceView)
        requires
            before.wf(),
            before@.has(current as int),
            before@.tasks[current as int].space is Some,
            self.current == before.current,
            self.clock == before.clock,
            self.memory == before.memory,
            self.frames.wf(),
            self.frames.total() == before.frames.total(),
            self.tasks@.len() == before.tasks@.len(),
            forall|i: int|
                0 <= i < self.tasks@.len() && i != current ==> self.tasks@[i] == before.tasks@[i],
            self.tasks@[current as int].status == before.tasks@[current as int].status,
            self.tasks@[current as int].syscall_times == before.tasks@[current as int].syscall_times,
            self.tasks@[current as int].first_run == before.tasks@[current as int].first_run,
            self.tasks@[current as int].context == before.tasks@[current as int].context,
            self.tasks@[current as int].space matches Some(space) && space.wf() && space@ == after,
            after.wf(),
            after.fits(self.frames.total(), self.frames.free_set()),
            after.owned().union(self.frames.free_set())
                == before@.tasks[current as int].space->0.owned().union(before@.free_set()),
        ensures
            self.wf(),
            self@ == before@.with_space(current as int, after, self.frames.free_list()),
            self@.tasks[current as int].space == Some(after),
    {
        let pre = before@;
        let c = current as int;
        assert(pre.tasks[c] == before.tasks@[c].view());
        assert(self@.tasks =~= pre.tasks.update(c, pre.tasks[c].with_space(Some(after)))) by {
            assert forall|i: int| 0 <= i < self.tasks@.len() implies self@.tasks[i] == pre.tasks.update(
                c,
                pre.tasks[c].with_space(Some(after)),
            )[i] by {
                if i != c {
                    assert(self.tasks@[i] == before.tasks@[i]);
                }
            }
        }
        lemma_space_replaced(pre, c, after, self.frames.free_list());
        assert forall|i: int| 0 <= i < self.tasks@.len() implies (#[trigger] self.tasks@[i]).wf() by {
            if i != c {
                assert(before.tasks@[i].wf());
            }
        }
    }
}

/// Going once round the list from a ready task finds a ready task.
pub proof fn lemma_round_reaches_start(tasks: Seq<TaskView>, from: int)
    requires
        0 <= from < tasks.len(),
        tasks[from].status == TaskStatus::Ready,
    ensures
        next_ready(tasks, from) is Some,
{
    if next_ready(tasks, from) is None {
        lemma_scan_none(tasks, from, tasks.len(), tasks.len());
        lemma_walk_round(from, tasks.len() as int, tasks.len());
    }
}

} // verus!
