//! What holds of sequences of requests: theorems about the state changes
//! that the contracts of the address space and of the task manager
//! describe.

use vstd::prelude::*;
use crate::accounting::{lemma_pages_round_trip, lemma_pages_round_trip_back};
use crate::address_space::SpaceView;
use crate::memory::{byte_reachable, physical, reachable, stored};
use crate::config::{page_count, HEAP_PERMISSION, PAGE_SIZE, SYSCALL_YIELD};
use crate::task::{
    counted, following, lemma_round_reaches_start, lemma_scan_ready, next_ready, scan_ready,
    ManagerView, TaskStatus, TaskView,
};
use crate::page_table::lemma_valid_permission_mask;
use crate::region::{
    carve, covered, lemma_regions_without_apart, mmap_backed, range_mmap_backed, range_overlaps,
    regions_without, MemoryRegion, RegionKind,
};

verus! {

/// A region that shares no page with a run does not meet it.
proof fn lemma_apart_regions_do_not_meet(regions: Seq<MemoryRegion>, first: int, n: int)
    requires
        forall|vpn: int| first <= vpn < first + n ==> !covered(regions, vpn),
    ensures
        !range_overlaps(regions, first, n),
{
    if range_overlaps(regions, first, n) {
        let i = choose|i: int| 0 <= i < regions.len() && #[trigger] regions[i].meets(first, n);
        let vpn = if regions[i].start < first {
            first
        } else {
            regions[i].start as int
        };
        assert(regions[i].contains(vpn));
        assert(covered(regions, vpn));
    }
}

/// Round trip of a mapping: when a request to map `len > 0` bytes at
/// `start` was carried out, a request to unmap the same bytes right after
/// it is carried out too, and it leaves the address space (its regions,
/// its page table) and the allocator's free list, order included, exactly
/// as they were before the two requests.
pub proof fn lemma_mmap_munmap_round_trip(
    start: usize,
    len: usize,
    port: usize,
    before: SpaceView,
    before_free: Seq<usize>,
    mapped: SpaceView,
    mapped_free: Seq<usize>,
    after: SpaceView,
    after_free: Seq<usize>,
)
    requires
        len > 0,
        before.wf(),
        before.mmap_refusal(start, len, port) is None,
        before.mmapped(before_free, start, len, port, mapped, mapped_free),
        mapped.munmapped(mapped_free, start, len, after, after_free),
    ensures
        mapped.munmap_failure(start, len) is None,
        after == before,
        after_free == before_free,
{
    let first = start as int / PAGE_SIZE as int;
    let n = page_count(len as int);
    let region = SpaceView::requested(start, len, port, RegionKind::Mmap);
    let last = before.regions.len() as int;
    assert(n > 0);
    assert(mapped.regions == before.regions.push(region));
    assert(mapped.regions[last] == region);
    assert(range_mmap_backed(mapped.regions, first, n)) by {
        assert forall|vpn: int| first <= vpn < first + n implies #[trigger] mmap_backed(
            mapped.regions,
            vpn,
        ) by {
            assert(mapped.regions[last].contains(vpn));
        }
    }
    assert forall|vpn: int| first <= vpn < first + n implies !before.mappings.contains_key(vpn) by {
        if covered(before.regions, vpn) {
            let i = choose|i: int| 0 <= i < before.regions.len() && #[trigger] before.regions[i].contains(vpn);
            assert(before.regions[i].meets(first, n));
        }
    }
    lemma_pages_round_trip(before.paging(before_free), first, n, port);
    assert(after.paging(after_free) == before.paging(before_free));
    assert(after.regions =~= before.regions) by {
        let lo = first as usize;
        let hi = (first + n) as usize;
        assert(mapped.regions.drop_last() =~= before.regions);
        assert(mapped.regions.last() == region);
        assert(carve(region, lo, hi) =~= Seq::<MemoryRegion>::empty());
        assert forall|i: int|
            0 <= i < before.regions.len() && (#[trigger] before.regions[i]).kind
                == RegionKind::Mmap implies before.regions[i].start < before.regions[i].end
            && !before.regions[i].meets(lo as int, hi - lo) by {}
        lemma_regions_without_apart(before.regions, lo, hi);
        assert(regions_without(mapped.regions, lo, hi) == regions_without(before.regions, lo, hi)
            + carve(region, lo, hi));
    }
}

/// A request to map with access bits that are zero, or that hold a bit
/// outside the mask `0b111`, is refused whatever else it asks for; a
/// refused request changes nothing.
pub proof fn lemma_mmap_refuses_bad_permission(
    space: SpaceView,
    free_count: nat,
    start: usize,
    len: usize,
    port: usize,
)
    requires
        port == 0 || port & !7usize != 0,
    ensures
        space.mmap_refusal(start, len, port) is Some,
        space.mmap_failure(free_count, start, len, port) is Some,
{
    lemma_valid_permission_mask(port);
    assert(0usize & 7 == 0) by (bit_vector);
}

/// A request to map a range that shares a page with an existing region is
/// refused; a refused request changes nothing, so no new mapping appears.
pub proof fn lemma_mmap_refuses_overlap(
    space: SpaceView,
    free_count: nat,
    start: usize,
    len: usize,
    port: usize,
)
    requires
        exists|vpn: int|
            start as int / PAGE_SIZE as int <= vpn < start as int / PAGE_SIZE as int + page_count(
                len as int,
            ) && #[trigger] covered(space.regions, vpn),
    ensures
        space.mmap_failure(free_count, start, len, port) is Some,
{
    let first = start as int / PAGE_SIZE as int;
    let n = page_count(len as int);
    let vpn = choose|vpn: int| first <= vpn < first + n && #[trigger] covered(space.regions, vpn);
    let i = choose|i: int| 0 <= i < space.regions.len() && #[trigger] space.regions[i].contains(vpn);
    assert(space.regions[i].meets(first, n));
}

/// A request to unmap a range of which some page does not lie in a region
/// that a mapping request created is refused; a refused request changes
/// nothing, so no existing mapping is removed.
pub proof fn lemma_munmap_refuses_unbacked(space: SpaceView, start: usize, len: usize)
    requires
        exists|vpn: int|
            start as int / PAGE_SIZE as int <= vpn < start as int / PAGE_SIZE as int + page_count(
                len as int,
            ) && !#[trigger] mmap_backed(space.regions, vpn),
    ensures
        space.munmap_failure(start, len) is Some,
{
}

/// Moving the program break by `delta` and then by `-delta` restores it:
/// when the first request was carried out, the second is carried out too,
/// and it leaves the break, the regions, the page table and the
/// allocator's free list, order included, exactly as they were before the
/// two requests.
pub proof fn lemma_break_round_trip(
    delta: int,
    before: SpaceView,
    before_free: Seq<usize>,
    moved: SpaceView,
    moved_free: Seq<usize>,
    after: SpaceView,
    after_free: Seq<usize>,
)
    requires
        before.wf(),
        !before.break_failure(before_free.len(), delta),
        before.break_adjusted(before_free, delta, moved, moved_free),
        moved.break_adjusted(moved_free, -delta, after, after_free),
    ensures
        !moved.break_failure(moved_free.len(), -delta),
        after.brk == before.brk,
        after == before,
        after_free == before_free,
{
    let e0 = page_count(before.brk as int);
    let e1 = page_count(moved.brk as int);
    assert(after.regions =~= before.regions);
    if e1 >= e0 {
        assert forall|vpn: int| e0 <= vpn < e1 implies !before.mappings.contains_key(vpn) by {
            if covered(before.regions, vpn) {
                let i = choose|i: int|
                    0 <= i < before.regions.len() && #[trigger] before.regions[i].contains(vpn);
                assert(before.regions[i].meets(e0, e1 - e0));
            }
        }
        lemma_pages_round_trip(before.paging(before_free), e0, e1 - e0, HEAP_PERMISSION);
    } else {
        assert forall|vpn: int| e1 <= vpn < e0 implies !covered(moved.regions, vpn) by {
            assert(before.regions[0].contains(vpn));
            if covered(moved.regions, vpn) {
                let i = choose|i: int|
                    0 <= i < moved.regions.len() && #[trigger] moved.regions[i].contains(vpn);
                assert(i != 0);
                assert(before.regions[i].contains(vpn));
            }
        }
        lemma_apart_regions_do_not_meet(moved.regions, e1, e0 - e1);
        assert forall|vpn: int| e1 <= vpn < e0 implies #[trigger] before.mappings.contains_key(vpn)
            && before.mappings[vpn].perms == HEAP_PERMISSION by {
            assert(before.regions[0].contains(vpn));
            assert(covered(before.regions, vpn));
        }
        lemma_pages_round_trip_back(before.paging(before_free), e1, e0 - e1, HEAP_PERMISSION);
    }
    assert(after.paging(after_free) == before.paging(before_free));
}

/// The counters after `m` entries into syscall `id`.
pub open spec fn counted_times(times: Seq<u32>, id: int, m: nat) -> Seq<u32>
    decreases m,
{
    if m == 0 {
        times
    } else {
        counted(counted_times(times, id, (m - 1) as nat), id)
    }
}

/// Counting is exact: after `m` entries into syscall `id`, the counter of
/// that syscall stands `m` higher than before (or at its maximum, once it
/// is reached), and every other counter stands where it stood. A task
/// that starts with all counters at zero and enters a syscall `m` times is
/// therefore reported to have entered it `m` times.
pub proof fn lemma_syscall_count(times: Seq<u32>, id: int, m: nat)
    requires
        0 <= id < times.len(),
    ensures
        counted_times(times, id, m).len() == times.len(),
        counted_times(times, id, m)[id] == if times[id] + m <= u32::MAX {
            times[id] + m
        } else {
            u32::MAX as int
        },
        forall|other: int|
            0 <= other < times.len() && other != id ==> counted_times(times, id, m)[other]
                == times[other],
    decreases m,
{
    if m > 0 {
        lemma_syscall_count(times, id, (m - 1) as nat);
    }
}

/// Entering a syscall touches one counter of the running task: no other
/// task's counters change, and none of the running task's other counters.
pub proof fn lemma_entry_counts_once(state: ManagerView, id: usize, task: int, other: int)
    requires
        state.wf(),
        state.current is Some,
        state.has(task),
        0 <= other < state.tasks[task].syscall_times.len(),
    ensures
        state.entered(id).tasks[task].syscall_times[other] == if task == state.current->0 && other
            == id {
            if state.tasks[task].syscall_times[other] == u32::MAX {
                u32::MAX
            } else {
                (state.tasks[task].syscall_times[other] + 1) as u32
            }
        } else {
            state.tasks[task].syscall_times[other]
        },
{
}

/// Number of tasks before position `i` that have not exited.
pub open spec fn live_before(tasks: Seq<TaskView>, i: int) -> nat
    decreases i,
{
    if i <= 0 {
        0
    } else {
        live_before(tasks, i - 1) + if tasks[i - 1].status != TaskStatus::Exited {
            1nat
        } else {
            0nat
        }
    }
}

/// Number of tasks that have not exited.
pub open spec fn live_count(tasks: Seq<TaskView>) -> nat {
    live_before(tasks, tasks.len() as int)
}

/// The state after the running task, and each task that ran after it,
/// called `sys_yield`, `k` calls in all.
pub open spec fn after_yields(state: ManagerView, k: nat) -> ManagerView
    decreases k,
{
    if k == 0 {
        state
    } else {
        after_yields(state, (k - 1) as nat).entered(SYSCALL_YIELD).yielded()
    }
}

/// One task is running, and it is the current one.
spec fn one_running(state: ManagerView) -> bool {
    &&& state.current matches Some(c) && state.has(c) && state.tasks[c].status == TaskStatus::Running
    &&& forall|i: int|
        state.has(i) && i != state.current->0 ==> (#[trigger] state.tasks[i]).status
            != TaskStatus::Running
}

/// The same tasks have exited in both lists.
spec fn same_lives(a: Seq<TaskView>, b: Seq<TaskView>) -> bool {
    &&& a.len() == b.len()
    &&& forall|i: int|
        0 <= i < a.len() ==> ((#[trigger] a[i]).status == TaskStatus::Exited <==> (#[trigger] b[i]).status
            == TaskStatus::Exited)
}

proof fn lemma_live_before_same(a: Seq<TaskView>, b: Seq<TaskView>, i: int)
    requires
        same_lives(a, b),
        i <= a.len(),
    ensures
        live_before(a, i) == live_before(b, i),
    decreases i,
{
    if i > 0 {
        lemma_live_before_same(a, b, i - 1);
        assert(a[i - 1].status == TaskStatus::Exited <==> b[i - 1].status == TaskStatus::Exited);
    }
}

proof fn lemma_live_monotone(tasks: Seq<TaskView>, a: int, b: int)
    requires
        a <= b,
    ensures
        live_before(tasks, a) <= live_before(tasks, b),
    decreases b - a,
{
    if a < b {
        lemma_live_monotone(tasks, a, b - 1);
    }
}

proof fn lemma_dead_gap(tasks: Seq<TaskView>, a: int, b: int)
    requires
        0 <= a <= b,
        forall|j: int| a <= j < b ==> (#[trigger] tasks[j]).status == TaskStatus::Exited,
    ensures
        live_before(tasks, b) == live_before(tasks, a),
    decreases b - a,
{
    if a < b {
        lemma_dead_gap(tasks, a, b - 1);
        assert(tasks[b - 1].status == TaskStatus::Exited);
    }
}

/// Two different tasks that have not exited have different numbers of
/// live tasks before them, and fewer than there are live tasks in all.
proof fn lemma_live_rank(tasks: Seq<TaskView>, i: int, j: int)
    requires
        0 <= i < tasks.len(),
        0 <= j < tasks.len(),
        tasks[i].status != TaskStatus::Exited,
        tasks[j].status != TaskStatus::Exited,
    ensures
        live_before(tasks, i) < live_count(tasks),
        i != j ==> live_before(tasks, i) != live_before(tasks, j),
{
    lemma_live_monotone(tasks, i + 1, tasks.len() as int);
    assert(live_before(tasks, i + 1) == live_before(tasks, i) + 1);
    if i < j {
        lemma_live_monotone(tasks, i + 1, j);
    } else if j < i {
        lemma_live_monotone(tasks, j + 1, i);
        assert(live_before(tasks, j + 1) == live_before(tasks, j) + 1);
    }
}

/// The task that a scan from `from` finds stands one live task further
/// round the list than `start`, when every task passed between `start`
/// and `from` has exited.
proof fn lemma_scan_rank(
    tasks: Seq<TaskView>,
    start: int,
    from: int,
    steps: nat,
    wrapped: bool,
)
    requires
        0 <= start < tasks.len(),
        0 <= from < tasks.len(),
        tasks[start].status == TaskStatus::Ready,
        forall|i: int| 0 <= i < tasks.len() ==> (#[trigger] tasks[i]).status != TaskStatus::Running,
        !wrapped ==> start <= from && forall|j: int|
            start < j <= from ==> (#[trigger] tasks[j]).status == TaskStatus::Exited,
        wrapped ==> from < start && (forall|j: int|
            start < j < tasks.len() ==> (#[trigger] tasks[j]).status == TaskStatus::Exited) && (
        forall|j: int| 0 <= j <= from ==> (#[trigger] tasks[j]).status == TaskStatus::Exited),
        scan_ready(tasks, from, steps) is Some,
    ensures
        live_before(tasks, scan_ready(tasks, from, steps)->0) == following(
            live_before(tasks, start) as int,
            live_count(tasks) as int,
        ),
    decreases steps,
{
    let n = tasks.len() as int;
    let next = following(from, n);
    let rank = live_before(tasks, start);
    assert(live_before(tasks, start + 1) == rank + 1);
    if tasks[next].status == TaskStatus::Ready {
        if !wrapped && next != 0 {
            lemma_dead_gap(tasks, start + 1, next);
            lemma_live_rank(tasks, next, next);
        } else if !wrapped {
            lemma_dead_gap(tasks, start + 1, n);
        } else {
            lemma_dead_gap(tasks, start + 1, n);
            lemma_dead_gap(tasks, 0, next);
        }
    } else {
        assert(tasks[next].status == TaskStatus::Exited);
        if !wrapped && next != 0 {
            lemma_scan_rank(tasks, start, next, (steps - 1) as nat, false);
        } else {
            lemma_scan_rank(tasks, start, next, (steps - 1) as nat, true);
        }
    }
}

/// One call of `sys_yield` keeps one task running, lets no task exit, and
/// moves the processor to the live task that stands next round the list.
proof fn lemma_yield_step(state: ManagerView)
    requires
        one_running(state),
    ensures
        one_running(state.entered(SYSCALL_YIELD).yielded()),
        same_lives(state.tasks, state.entered(SYSCALL_YIELD).yielded().tasks),
        live_before(state.tasks, state.entered(SYSCALL_YIELD).yielded().current->0) == following(
            live_before(state.tasks, state.current->0) as int,
            live_count(state.tasks) as int,
        ),
{
    let c = state.current->0;
    let entered = state.entered(SYSCALL_YIELD);
    let waiting = entered.tasks.update(c, entered.tasks[c].with_status(TaskStatus::Ready));
    let after = entered.yielded();
    assert forall|i: int| 0 <= i < waiting.len() implies (#[trigger] waiting[i]).status
        != TaskStatus::Running by {
        if i != c {
            assert(state.tasks[i].status != TaskStatus::Running);
        }
    }
    lemma_round_reaches_start(waiting, c);
    let next = next_ready(waiting, c)->0;
    lemma_scan_ready(waiting, c, waiting.len());
    lemma_scan_rank(waiting, c, c, waiting.len(), false);
    assert(same_lives(state.tasks, waiting)) by {
        assert forall|i: int| 0 <= i < state.tasks.len() implies ((#[trigger] state.tasks[i]).status
            == TaskStatus::Exited <==> (#[trigger] waiting[i]).status == TaskStatus::Exited) by {}
    }
    lemma_live_before_same(state.tasks, waiting, next);
    lemma_live_before_same(state.tasks, waiting, c);
    lemma_live_before_same(state.tasks, waiting, waiting.len() as int);
    assert(after.tasks == waiting.update(next, waiting[next].scheduled(entered.clock)));
    assert(same_lives(state.tasks, after.tasks)) by {
        assert forall|i: int| 0 <= i < state.tasks.len() implies ((#[trigger] state.tasks[i]).status
            == TaskStatus::Exited <==> (#[trigger] after.tasks[i]).status == TaskStatus::Exited) by {
            assert(state.tasks[i].status == TaskStatus::Exited <==> waiting[i].status
                == TaskStatus::Exited);
        }
    }
    assert forall|i: int| after.has(i) && i != next implies (#[trigger] after.tasks[i]).status
        != TaskStatus::Running by {
        assert(waiting[i].status != TaskStatus::Running);
    }
}

/// After `k` calls of `sys_yield` one task is running, the same tasks are
/// live, and the running task stands `k` live tasks further round the
/// list.
proof fn lemma_yields_walk(state: ManagerView, k: nat)
    requires
        one_running(state),
    ensures
        one_running(after_yields(state, k)),
        same_lives(state.tasks, after_yields(state, k).tasks),
        live_before(state.tasks, after_yields(state, k).current->0) == walk_back(
            live_before(state.tasks, state.current->0) as int,
            live_count(state.tasks) as int,
            k,
        ),
    decreases k,
{
    if k > 0 {
        let before = after_yields(state, (k - 1) as nat);
        lemma_yields_walk(state, (k - 1) as nat);
        lemma_yield_step(before);
        let after = after_yields(state, k);
        lemma_live_before_same(state.tasks, before.tasks, before.current->0);
        lemma_live_before_same(state.tasks, before.tasks, after.current->0);
        lemma_live_before_same(state.tasks, before.tasks, state.tasks.len() as int);
        assert(same_lives(state.tasks, after.tasks)) by {
            assert forall|i: int| 0 <= i < state.tasks.len() implies ((#[trigger] state.tasks[i]).status
                == TaskStatus::Exited <==> (#[trigger] after.tasks[i]).status
                == TaskStatus::Exited) by {
                assert(state.tasks[i].status == TaskStatus::Exited <==> before.tasks[i].status
                    == TaskStatus::Exited);
            }
        }
    }
}

/// The position reached from `from` after `k` steps round `n` places,
/// counting the last step last.
spec fn walk_back(from: int, n: int, k: nat) -> int
    decreases k,
{
    if k == 0 {
        from
    } else {
        following(walk_back(from, n, (k - 1) as nat), n)
    }
}

proof fn lemma_walk_back(from: int, n: int, k: nat)
    requires
        0 <= from < n,
        k <= n,
    ensures
        from + k < n ==> walk_back(from, n, k) == from + k,
        from + k >= n ==> walk_back(from, n, k) == from + k - n,
    decreases k,
{
    if k > 0 {
        lemma_walk_back(from, n, (k - 1) as nat);
    }
}

/// Round-robin fairness. From a state in which task T is running, let T
/// and every task that runs after it call `sys_yield`. With `m` live
/// tasks (tasks that have not exited), T is running again after exactly
/// `m` calls, and in between, at any two different moments of that round,
/// two different tasks are running: each live task gets the processor
/// exactly once per round.
pub proof fn lemma_round_robin_fairness(state: ManagerView, j: nat, k: nat)
    requires
        state.wf(),
        state.current is Some,
    ensures
        live_count(state.tasks) >= 1,
        after_yields(state, live_count(state.tasks)).current == state.current,
        j < k < live_count(state.tasks) ==> after_yields(state, j).current != after_yields(
            state,
            k,
        ).current,
        0 < k < live_count(state.tasks) ==> after_yields(state, k).current != state.current,
{
    let c = state.current->0;
    let m = live_count(state.tasks);
    let rank = live_before(state.tasks, c) as int;
    assert(one_running(state)) by {
        assert forall|i: int| state.has(i) && i != c implies (#[trigger] state.tasks[i]).status
            != TaskStatus::Running by {}
    }
    lemma_live_rank(state.tasks, c, c);
    let round = after_yields(state, m);
    lemma_yields_walk(state, m);
    lemma_walk_back(rank, m as int, m);
    assert(round.tasks[round.current->0].status != TaskStatus::Exited <==> state.tasks[round.current->0].status
        != TaskStatus::Exited);
    lemma_live_rank(state.tasks, c, round.current->0);
    if j < k < m {
        let a = after_yields(state, j);
        let b = after_yields(state, k);
        lemma_yields_walk(state, j);
        lemma_yields_walk(state, k);
        lemma_walk_back(rank, m as int, j);
        lemma_walk_back(rank, m as int, k);
        assert(a.tasks[a.current->0].status != TaskStatus::Exited <==> state.tasks[a.current->0].status
            != TaskStatus::Exited);
        assert(b.tasks[b.current->0].status != TaskStatus::Exited <==> state.tasks[b.current->0].status
            != TaskStatus::Exited);
        lemma_live_rank(state.tasks, a.current->0, b.current->0);
    }
    if 0 < k < m {
        let b = after_yields(state, k);
        lemma_yields_walk(state, k);
        lemma_walk_back(rank, m as int, k);
        assert(b.tasks[b.current->0].status != TaskStatus::Exited <==> state.tasks[b.current->0].status
            != TaskStatus::Exited);
        lemma_live_rank(state.tasks, c, b.current->0);
    }
}

/// The time since task `task` was first scheduled, as a snapshot of the
/// task would report it.
pub open spec fn running_time_of(state: ManagerView, task: int) -> int {
    state.clock - state.tasks[task].first_run->0
}

/// A task's running time never decreases: not when the clock is read
/// (whatever the reading), nor when a syscall is counted, nor when a task
/// yields or exits. Once a task has been scheduled, the moment of its
/// first scheduling stays what it is.
pub proof fn lemma_running_time_never_decreases(
    state: ManagerView,
    task: int,
    now_us: usize,
    id: usize,
    after_exit: ManagerView,
)
    requires
        state.wf(),
        state.has(task),
        state.tasks[task].first_run is Some,
    ensures
        running_time_of(state, task) >= 0,
        running_time_of(
            ManagerView {
                clock: if now_us > state.clock {
                    now_us
                } else {
                    state.clock
                },
                ..state
            },
            task,
        ) >= running_time_of(state, task),
        state.current is Some ==> running_time_of(state.entered(id), task) == running_time_of(
            state,
            task,
        ),
        state.current is Some ==> running_time_of(state.yielded(), task) == running_time_of(
            state,
            task,
        ),
        state.current is Some && state.exited(after_exit) ==> running_time_of(after_exit, task)
            == running_time_of(state, task),
{
    if state.current is Some {
        let c = state.current->0;
        let waiting = state.tasks.update(c, state.tasks[c].with_status(TaskStatus::Ready));
        lemma_round_reaches_start(waiting, c);
        lemma_scan_ready(waiting, c, waiting.len());
        let gone = state.tasks.update(
            c,
            state.tasks[c].with_status(TaskStatus::Exited).with_space(None),
        );
        lemma_scan_ready(gone, c, gone.len());
    }
}

/// Tasks are isolated from each other: bytes that the running task
/// stores through its address space change no byte that another task
/// reaches through its own.
pub proof fn lemma_store_leaves_other_tasks_alone(
    state: ManagerView,
    after_memory: Seq<u8>,
    va: int,
    data: Seq<u8>,
    other: int,
    other_va: int,
)
    requires
        state.wf(),
        state.current is Some,
        state.has(other),
        other != state.current->0,
        state.tasks[other].space is Some,
        reachable(state.current_space().mappings, state.memory.len() as int, va, data.len() as int),
        stored(
            state.memory,
            after_memory,
            state.current_space().mappings,
            va,
            data,
            data.len() as int,
        ),
        byte_reachable(state.tasks[other].space->0.mappings, state.memory.len() as int, other_va),
    ensures
        after_memory[physical(state.tasks[other].space->0.mappings, other_va)] == state.memory[physical(
            state.tasks[other].space->0.mappings,
            other_va,
        )],
{
    let mine = state.current_space();
    let theirs = state.tasks[other].space->0;
    let pa = physical(theirs.mappings, other_va);
    let their_page = other_va / (PAGE_SIZE as int);
    let their_frame = theirs.mappings[their_page].frame;
    assert(state.tasks[state.current->0].space is Some);
    assert(mine.owned().disjoint(theirs.owned()));
    assert(theirs.mappings.contains_key(their_page));
    assert(theirs.owned().contains(their_frame));
    assert forall|i: int| 0 <= i < data.len() implies #[trigger] physical(mine.mappings, va + i)
        != pa by {
        assert(byte_reachable(mine.mappings, state.memory.len() as int, va + i));
        let my_page = (va + i) / (PAGE_SIZE as int);
        let my_frame = mine.mappings[my_page].frame;
        assert(mine.mappings.contains_key(my_page));
        assert(mine.owned().contains(my_frame));
        assert(my_frame != their_frame);
    }
}

} // verus!
