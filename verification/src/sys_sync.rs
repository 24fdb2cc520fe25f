//! Synchronization system calls: creating mutexes, semaphores and condition
//! variables, the deadlock checks on lock and down requests, and the record
//! of who holds what. Blocking, waking and sleeping are the caller's.
use vstd::prelude::*;
use crate::banker::{rows, entry, safe_state, column_total};
use crate::deadlock::{
    check_mutex_deadlock_safe, check_semaphore_deadlock_with_queues, sem_work, sem_holdings,
    sem_threads, sem_request, requests_own_mutex,
};
use crate::process::{
    MutexKind, ProcessState, is_lowest_free, all_taken, lowest_free_slot, count_live_threads,
    only_mutexes_changed, only_semaphores_changed, only_condvars_changed, only_detection_changed,
};

verus! {

/// Error code returned by lock and down requests when a deadlock is detected.
pub const DEADLOCK_DETECTED: isize = -0xDEAD;

/// The time at which a sleep of `ms` milliseconds started at `now_ms` ends.
pub fn sys_sleep(now_ms: usize, ms: usize) -> (expire_ms: usize)
    requires
        now_ms + ms <= usize::MAX,
    ensures
        expire_ms == now_ms + ms,
{
    now_ms + ms
}

/// `s` grown with `None` to at least `n` slots.
pub open spec fn padded<T>(s: Seq<Option<T>>, n: int) -> Seq<Option<T>> {
    if s.len() >= n {
        s
    } else {
        s + Seq::new((n - s.len()) as nat, |k: int| None)
    }
}

/// Grows `slots` with `None` until slot `id` exists.
fn pad_slots<T>(slots: &mut Vec<Option<T>>, id: usize)
    requires
        id < usize::MAX,
    ensures
        final(slots)@ == padded(old(slots)@, id + 1),
{
    let ghost start = slots@;
    while id >= slots.len()
        invariant
            start.len() <= slots@.len() <= id + 1 || slots@ == start,
            slots@.len() >= start.len(),
            slots@ =~= padded(start, slots@.len() as int),
            id < usize::MAX,
        decreases id + 1 - slots.len(),
    {
        slots.push(None);
    }
    assert(slots@ =~= padded(start, id + 1));
}

/// Creates a mutex (blocking or spinning) in the lowest free id, adding an id
/// at the end when all are in use; nobody holds it. Returns the id.
pub fn sys_mutex_create(state: &mut ProcessState, blocking: bool) -> (id: isize)
    requires
        old(state).mutex_list.len() < isize::MAX,
    ensures
        ({
            let kind = if blocking {
                MutexKind::Blocking
            } else {
                MutexKind::Spin
            };
            let old_list = old(state).mutex_list@;
            let old_holders = old(state).mutex_holders@;
            &&& 0 <= id <= old_list.len()
            &&& id < old_list.len() ==> is_lowest_free(old_list, id as int)
            &&& id == old_list.len() ==> all_taken(old_list)
            &&& final(state).mutex_list@ == if id < old_list.len() {
                old_list.update(id as int, Some(kind))
            } else {
                old_list.push(Some(kind))
            }
            &&& final(state).mutex_holders@ == if id < old_list.len() {
                padded(old_holders, id + 1).update(id as int, None)
            } else {
                old_holders.push(None)
            }
        }),
        only_mutexes_changed(*old(state), *final(state)),
{
    let kind = if !blocking {
        MutexKind::Spin
    } else {
        MutexKind::Blocking
    };
    match lowest_free_slot(&state.mutex_list) {
        Some(id) => {
            state.mutex_list.set(id, Some(kind));
            pad_slots(&mut state.mutex_holders, id);
            state.mutex_holders.set(id, None);
            id as isize
        },
        None => {
            state.mutex_list.push(Some(kind));
            state.mutex_holders.push(None);
            state.mutex_list.len() as isize - 1
        },
    }
}

/// What a lock request comes to.
#[derive(Clone, Copy, PartialEq, Eq, Debug, Structural)]
pub enum LockStep {
    /// Granting it would deadlock: the call returns `DEADLOCK_DETECTED`.
    DeadlockDetected,
    /// Lock the mutex (possibly waiting), then record the holder with
    /// `mutex_lock_acquired`.
    Acquire,
}

/// With detection on, a lock request deadlocks when the thread already
/// holds the mutex it asks for.
pub open spec fn mutex_lock_deadlocks(state: ProcessState, current_tid: usize, mutex_id: usize) -> bool {
    &&& state.deadlock_detect_enabled
    &&& mutex_id < state.mutex_holders@.len()
    &&& state.mutex_holders@[mutex_id as int] == Some(current_tid)
}

/// Checks a lock request of thread `current_tid` for mutex `mutex_id`.
///
/// With detection on, the request is refused when the thread already holds
/// the mutex, or when the banker's check on the mutexes (each a single unit,
/// held by the recorded holders) finds the state after the request unsafe;
/// the second never refuses what the first lets through.
pub fn sys_mutex_lock(state: &ProcessState, current_tid: usize, mutex_id: usize) -> (step: LockStep)
    ensures
        step == if mutex_lock_deadlocks(*state, current_tid, mutex_id) {
            LockStep::DeadlockDetected
        } else {
            LockStep::Acquire
        },
        step == LockStep::DeadlockDetected <==> (state.deadlock_detect_enabled && mutex_id
            < state.mutex_holders@.len() && state.mutex_holders@[mutex_id as int] == Some(
            current_tid,
        )),
{
    if state.deadlock_detect_enabled {
        let mutex_count: usize = state.mutex_list.len();
        // Asking again for a mutex the thread holds would wait on itself.
        if mutex_id < state.mutex_holders.len() {
            if let Some(holder_tid) = state.mutex_holders[mutex_id] {
                if holder_tid == current_tid {
                    return LockStep::DeadlockDetected;
                }
            }
        }
        let thread_count: usize = count_live_threads(&state.tasks);
        if !check_mutex_deadlock_safe(
            thread_count,
            mutex_count,
            current_tid,
            mutex_id,
            state.mutex_holders.as_slice(),
        ) {
            assert(requests_own_mutex(mutex_count, current_tid, mutex_id, state.mutex_holders@));
            return LockStep::DeadlockDetected;
        }
    }
    LockStep::Acquire
}

/// The holders once thread `tid` holds mutex `id`.
pub open spec fn holders_after_lock(h: Seq<Option<usize>>, tid: usize, id: usize) -> Seq<
    Option<usize>,
> {
    padded(h, id + 1).update(id as int, Some(tid))
}

/// The holders once thread `tid` lets mutex `id` go: the mutex has no holder
/// if that thread held it.
pub open spec fn holders_after_unlock(h: Seq<Option<usize>>, tid: usize, id: usize) -> Seq<
    Option<usize>,
> {
    if id < h.len() && h[id as int] == Some(tid) {
        h.update(id as int, None)
    } else {
        h
    }
}

/// Records that thread `current_tid` now holds mutex `mutex_id`.
pub fn mutex_lock_acquired(state: &mut ProcessState, current_tid: usize, mutex_id: usize) -> (ret:
    isize)
    requires
        mutex_id < usize::MAX,
    ensures
        ret == 0,
        final(state).mutex_holders@ == holders_after_lock(
            old(state).mutex_holders@,
            current_tid,
            mutex_id,
        ),
        final(state).mutex_list == old(state).mutex_list,
        only_mutexes_changed(*old(state), *final(state)),
{
    pad_slots(&mut state.mutex_holders, mutex_id);
    state.mutex_holders.set(mutex_id, Some(current_tid));
    0
}

/// Records the release of mutex `mutex_id` by thread `current_tid`: the
/// mutex has no holder afterwards if that thread held it. Returns 0.
pub fn sys_mutex_unlock(state: &mut ProcessState, current_tid: usize, mutex_id: usize) -> (ret:
    isize)
    requires
        mutex_id < old(state).mutex_list@.len(),
        old(state).mutex_list@[mutex_id as int] is Some,
    ensures
        ret == 0,
        final(state).mutex_holders@ == holders_after_unlock(
            old(state).mutex_holders@,
            current_tid,
            mutex_id,
        ),
        final(state).mutex_list == old(state).mutex_list,
        only_mutexes_changed(*old(state), *final(state)),
{
    if mutex_id < state.mutex_holders.len() && state.mutex_holders[mutex_id] == Some(current_tid) {
        state.mutex_holders.set(mutex_id, None);
    }
    0
}

/// Row `r` grown with zeros to at least `n` entries, with entry `id` set to 0.
pub open spec fn row_with_zero(r: Seq<usize>, id: int) -> Seq<usize> {
    let grown = if r.len() > id {
        r
    } else {
        r + Seq::new((id + 1 - r.len()) as nat, |k: int| 0usize)
    };
    grown.update(id, 0)
}

/// Takes row `t` out of a matrix, leaving an empty row in its place.
fn take_row(m: &mut Vec<Vec<usize>>, t: usize) -> (row: Vec<usize>)
    requires
        t < old(m).len(),
    ensures
        row@ == rows(old(m)@)[t as int],
        rows(final(m)@) == rows(old(m)@).update(t as int, Seq::empty()),
        final(m).len() == old(m).len(),
{
    let mut row: Vec<usize> = Vec::new();
    std::mem::swap(&mut row, &mut m[t]);
    proof {
        assert(rows(m@) =~= rows(old(m)@).update(t as int, Seq::empty()));
    }
    row
}

/// Puts `row` in place of row `t` of a matrix.
fn set_row(m: &mut Vec<Vec<usize>>, t: usize, row: Vec<usize>)
    requires
        t < old(m).len(),
    ensures
        rows(final(m)@) == rows(old(m)@).update(t as int, row@),
        final(m).len() == old(m).len(),
{
    let ghost r = row@;
    m.set(t, row);
    proof {
        assert(rows(m@) =~= rows(old(m)@).update(t as int, r));
    }
}

/// Creates a semaphore with `res_count` units in the lowest free id, adding
/// an id at the end when all are in use, and gives every thread a zero
/// holding of it. Returns the id.
pub fn sys_semaphore_create(state: &mut ProcessState, res_count: usize) -> (id: isize)
    requires
        old(state).semaphore_list.len() < isize::MAX,
    ensures
        ({
            let old_list = old(state).semaphore_list@;
            let old_alloc = rows(old(state).sem_allocation@);
            let new_alloc = rows(final(state).sem_allocation@);
            &&& 0 <= id <= old_list.len()
            &&& id < old_list.len() ==> is_lowest_free(old_list, id as int)
            &&& id == old_list.len() ==> all_taken(old_list)
            &&& final(state).semaphore_list@ == if id < old_list.len() {
                old_list.update(id as int, Some(res_count))
            } else {
                old_list.push(Some(res_count))
            }
            &&& new_alloc.len() == old_alloc.len()
            &&& forall|t: int|
                0 <= t < old_alloc.len() ==> #[trigger] new_alloc[t] == if id < old_list.len() {
                    row_with_zero(old_alloc[t], id as int)
                } else {
                    old_alloc[t].push(0)
                }
        }),
        only_semaphores_changed(*old(state), *final(state)),
{
    match lowest_free_slot(&state.semaphore_list) {
        Some(id) => {
            state.semaphore_list.set(id, Some(res_count));
            let ghost old_alloc = rows(state.sem_allocation@);
            // Make sure each thread's allocation row covers this semaphore id.
            let mut t: usize = 0;
            while t < state.sem_allocation.len()
                invariant
                    t <= state.sem_allocation.len(),
                    old_alloc.len() == state.sem_allocation.len(),
                    id < old(state).semaphore_list.len(),
                    forall|u: int|
                        0 <= u < old_alloc.len() ==> #[trigger] rows(state.sem_allocation@)[u]
                            == if u < t {
                            row_with_zero(old_alloc[u], id as int)
                        } else {
                            old_alloc[u]
                        },
                    state.fd_table == old(state).fd_table,
                    state.tasks == old(state).tasks,
                    state.mutex_list == old(state).mutex_list,
                    state.mutex_holders == old(state).mutex_holders,
                    state.condvar_list == old(state).condvar_list,
                    state.deadlock_detect_enabled == old(state).deadlock_detect_enabled,
                    state.semaphore_list@ == old(state).semaphore_list@.update(
                        id as int,
                        Some(res_count),
                    ),
                decreases state.sem_allocation.len() - t,
            {
                let mut row: Vec<usize> = take_row(&mut state.sem_allocation, t);
                let ghost r0 = row@;
                proof {
                    assert(r0 == old_alloc[t as int]);
                }
                while id >= row.len()
                    invariant
                        r0.len() <= row@.len(),
                        row@ =~= r0 + Seq::new((row@.len() - r0.len()) as nat, |k: int| 0usize),
                        r0.len() > id ==> row@ == r0,
                        row@.len() <= id + 1 || row@ == r0,
                        id < usize::MAX,
                    decreases id + 1 - row.len(),
                {
                    row.push(0);
                }
                row.set(id, 0);
                proof {
                    assert(row@ =~= row_with_zero(r0, id as int));
                }
                set_row(&mut state.sem_allocation, t, row);
                t = t + 1;
            }
            id as isize
        },
        None => {
            state.semaphore_list.push(Some(res_count));
            let new_id: usize = state.semaphore_list.len() - 1;
            let ghost old_alloc = rows(state.sem_allocation@);
            // Append a column to every existing thread's allocation row.
            let mut t: usize = 0;
            while t < state.sem_allocation.len()
                invariant
                    t <= state.sem_allocation.len(),
                    old_alloc.len() == state.sem_allocation.len(),
                    forall|u: int|
                        0 <= u < old_alloc.len() ==> #[trigger] rows(state.sem_allocation@)[u]
                            == if u < t {
                            old_alloc[u].push(0)
                        } else {
                            old_alloc[u]
                        },
                    state.fd_table == old(state).fd_table,
                    state.tasks == old(state).tasks,
                    state.mutex_list == old(state).mutex_list,
                    state.mutex_holders == old(state).mutex_holders,
                    state.condvar_list == old(state).condvar_list,
                    state.deadlock_detect_enabled == old(state).deadlock_detect_enabled,
                    state.semaphore_list@ == old(state).semaphore_list@.push(Some(res_count)),
                decreases state.sem_allocation.len() - t,
            {
                let mut row: Vec<usize> = take_row(&mut state.sem_allocation, t);
                proof {
                    assert(row@ == old_alloc[t as int]);
                }
                row.push(0);
                set_row(&mut state.sem_allocation, t, row);
                t = t + 1;
            }
            new_id as isize
        },
    }
}

/// What the threads hold once thread `tid` gives a unit of semaphore `sem`
/// back: one less, if it held any.
pub open spec fn alloc_after_up(a: Seq<Seq<usize>>, tid: int, sem: int) -> Seq<Seq<usize>> {
    if entry(a, tid, sem) > 0 {
        a.update(tid, a[tid].update(sem, (entry(a, tid, sem) - 1) as usize))
    } else {
        a
    }
}

/// What the threads hold once thread `tid` takes a unit of semaphore `sem`:
/// the table grows with empty rows to cover the thread, its row grows with
/// zeros to cover the semaphore, and that entry rises by one.
pub open spec fn alloc_after_down(a: Seq<Seq<usize>>, tid: int, sem: int) -> Seq<Seq<usize>> {
    let n: int = if a.len() > tid {
        a.len() as int
    } else {
        tid + 1
    };
    let row = entry_row(a, tid);
    let grown_row = if row.len() > sem {
        row
    } else {
        row + Seq::new((sem + 1 - row.len()) as nat, |k: int| 0usize)
    };
    Seq::new(n as nat, |t: int| entry_row(a, t)).update(
        tid,
        grown_row.update(sem, (grown_row[sem] + 1) as usize),
    )
}

/// Records the release of a unit of semaphore `sem_id` by thread
/// `current_tid`: what the thread holds of it drops by one if it held any.
/// Returns 0.
pub fn sys_semaphore_up(state: &mut ProcessState, current_tid: usize, sem_id: usize) -> (ret: isize)
    requires
        sem_id < old(state).semaphore_list@.len(),
        old(state).semaphore_list@[sem_id as int] is Some,
    ensures
        ret == 0,
        rows(final(state).sem_allocation@) == alloc_after_up(
            rows(old(state).sem_allocation@),
            current_tid as int,
            sem_id as int,
        ),
        final(state).semaphore_list == old(state).semaphore_list,
        only_semaphores_changed(*old(state), *final(state)),
{
    let ghost old_alloc = rows(state.sem_allocation@);
    if current_tid < state.sem_allocation.len() && sem_id < state.sem_allocation[current_tid].len()
        && state.sem_allocation[current_tid][sem_id] > 0 {
        let mut row: Vec<usize> = take_row(&mut state.sem_allocation, current_tid);
        let v: usize = row[sem_id];
        row.set(sem_id, v - 1);
        set_row(&mut state.sem_allocation, current_tid, row);
        proof {
            assert(rows(state.sem_allocation@) =~= old_alloc.update(
                current_tid as int,
                old_alloc[current_tid as int].update(sem_id as int, (v - 1) as usize),
            ));
        }
    }
    0
}

/// What a down request comes to.
#[derive(Clone, Copy, PartialEq, Eq, Debug, Structural)]
pub enum DownStep {
    /// Granting it would deadlock: the call returns `DEADLOCK_DETECTED`.
    DeadlockDetected,
    /// Take a unit (possibly waiting), then record it with
    /// `semaphore_down_acquired`.
    Acquire,
}

/// With detection on, a down request is checked when the semaphore has no
/// unit left.
pub open spec fn semaphore_down_checked(
    state: ProcessState,
    sem_id: usize,
    sem_counts: Seq<isize>,
) -> bool {
    state.deadlock_detect_enabled && sem_id < sem_counts.len() && sem_counts[sem_id as int] <= 0
}

/// The banker's check on the semaphores finds the state after the request
/// safe.
pub open spec fn semaphore_state_safe(
    state: ProcessState,
    current_tid: usize,
    sem_id: usize,
    sem_counts: Seq<isize>,
    sem_wait_queues: Seq<Seq<usize>>,
) -> bool {
    let sem_count: usize = state.semaphore_list.len();
    let alloc = rows(state.sem_allocation@);
    let tids = sem_threads(alloc, sem_wait_queues, current_tid);
    sem_count == 0 || safe_state(
        sem_work(sem_count, sem_counts),
        sem_holdings(sem_count, alloc, tids),
        sem_request(sem_count, sem_wait_queues, tids, current_tid, sem_id),
    )
}

/// The units that the check counts, free and held, fit in a `usize`.
pub open spec fn semaphore_units_fit(
    state: ProcessState,
    current_tid: usize,
    sem_counts: Seq<isize>,
    sem_wait_queues: Seq<Seq<usize>>,
) -> bool {
    let sem_count: usize = state.semaphore_list.len();
    let alloc = rows(state.sem_allocation@);
    forall|j: int|
        0 <= j < sem_count ==> sem_work(sem_count, sem_counts)[j] + column_total(
            sem_holdings(sem_count, alloc, sem_threads(alloc, sem_wait_queues, current_tid)),
            j,
        ) <= usize::MAX
}

/// Checks a down request of thread `current_tid` on semaphore `sem_id`.
///
/// `sem_counts[j]` is the count of semaphore `j` and `sem_wait_queues[j]`
/// the threads waiting on it (0 and none for a free id). With detection on
/// and no unit of `sem_id` left, the request is refused when the banker's
/// check, counting the waiting threads' requests, finds the state unsafe.
pub fn sys_semaphore_down(
    state: &ProcessState,
    current_tid: usize,
    sem_id: usize,
    sem_counts: &[isize],
    sem_wait_queues: &[Vec<usize>],
) -> (step: DownStep)
    requires
        sem_counts@.len() == state.semaphore_list@.len(),
        sem_wait_queues@.len() == state.semaphore_list@.len(),
        semaphore_down_checked(*state, sem_id, sem_counts@) ==> semaphore_units_fit(
            *state,
            current_tid,
            sem_counts@,
            rows(sem_wait_queues@),
        ),
    ensures
        !state.deadlock_detect_enabled ==> step == DownStep::Acquire,
        (sem_id >= sem_counts@.len() || sem_counts@[sem_id as int] > 0) ==> step
            == DownStep::Acquire,
        step == if semaphore_down_checked(*state, sem_id, sem_counts@) && !semaphore_state_safe(
            *state,
            current_tid,
            sem_id,
            sem_counts@,
            rows(sem_wait_queues@),
        ) {
            DownStep::DeadlockDetected
        } else {
            DownStep::Acquire
        },
{
    if state.deadlock_detect_enabled {
        let sem_count: usize = state.semaphore_list.len();
        if sem_id < sem_counts.len() && sem_counts[sem_id] <= 0 {
            if !check_semaphore_deadlock_with_queues(
                sem_count,
                current_tid,
                sem_id,
                sem_counts,
                state.sem_allocation.as_slice(),
                sem_wait_queues,
            ) {
                return DownStep::DeadlockDetected;
            }
        }
    }
    DownStep::Acquire
}

/// Records that thread `current_tid` took a unit of semaphore `sem_id`:
/// the allocation grows to cover the thread and the semaphore, and what the
/// thread holds of it rises by one. Returns 0.
pub fn semaphore_down_acquired(state: &mut ProcessState, current_tid: usize, sem_id: usize) -> (ret:
    isize)
    requires
        current_tid < usize::MAX,
        sem_id < usize::MAX,
        entry(rows(old(state).sem_allocation@), current_tid as int, sem_id as int) < usize::MAX,
    ensures
        ret == 0,
        rows(final(state).sem_allocation@) == alloc_after_down(
            rows(old(state).sem_allocation@),
            current_tid as int,
            sem_id as int,
        ),
        ({
            let old_alloc = rows(old(state).sem_allocation@);
            let new_alloc = rows(final(state).sem_allocation@);
            &&& new_alloc.len() == if old_alloc.len() > current_tid {
                old_alloc.len() as int
            } else {
                current_tid + 1
            }
            &&& forall|t: int|
                0 <= t < new_alloc.len() && t != current_tid ==> #[trigger] new_alloc[t] == if t
                    < old_alloc.len() {
                    old_alloc[t]
                } else {
                    Seq::empty()
                }
            &&& new_alloc[current_tid as int].len() == if entry_row_len(old_alloc, current_tid as int)
                > sem_id {
                entry_row_len(old_alloc, current_tid as int)
            } else {
                sem_id + 1
            }
            &&& forall|j: int|
                0 <= j < new_alloc[current_tid as int].len() ==> #[trigger] new_alloc[current_tid as int][j]
                    == entry(old_alloc, current_tid as int, j) + if j == sem_id {
                    1int
                } else {
                    0int
                }
        }),
        final(state).semaphore_list == old(state).semaphore_list,
        only_semaphores_changed(*old(state), *final(state)),
{
    let ghost old_alloc = rows(state.sem_allocation@);
    while current_tid >= state.sem_allocation.len()
        invariant
            old_alloc.len() <= state.sem_allocation.len(),
            state.sem_allocation.len() <= current_tid + 1 || state.sem_allocation.len()
                == old_alloc.len(),
            current_tid < usize::MAX,
            forall|t: int|
                0 <= t < state.sem_allocation.len() ==> #[trigger] rows(state.sem_allocation@)[t]
                    == if t < old_alloc.len() {
                    old_alloc[t]
                } else {
                    Seq::empty()
                },
            state.fd_table == old(state).fd_table,
            state.tasks == old(state).tasks,
            state.mutex_list == old(state).mutex_list,
            state.mutex_holders == old(state).mutex_holders,
            state.condvar_list == old(state).condvar_list,
            state.deadlock_detect_enabled == old(state).deadlock_detect_enabled,
            state.semaphore_list == old(state).semaphore_list,
        decreases current_tid + 1 - state.sem_allocation.len(),
    {
        let ghost before = state.sem_allocation@;
        state.sem_allocation.push(Vec::new());
        proof {
            assert(rows(state.sem_allocation@) =~= rows(before).push(Seq::empty()));
        }
    }
    let mut row: Vec<usize> = take_row(&mut state.sem_allocation, current_tid);
    let ghost r0 = row@;
    proof {
        assert(r0 == entry_row(old_alloc, current_tid as int));
    }
    while sem_id >= row.len()
        invariant
            r0.len() <= row@.len(),
            row@ =~= r0 + Seq::new((row@.len() - r0.len()) as nat, |k: int| 0usize),
            row@.len() <= sem_id + 1 || row@ == r0,
            sem_id < usize::MAX,
        decreases sem_id + 1 - row.len(),
    {
        row.push(0);
    }
    let v: usize = row[sem_id];
    row.set(sem_id, v + 1);
    set_row(&mut state.sem_allocation, current_tid, row);
    proof {
        let na = rows(state.sem_allocation@);
        let expect = alloc_after_down(old_alloc, current_tid as int, sem_id as int);
        assert forall|t: int| 0 <= t < na.len() implies #[trigger] na[t] =~= expect[t] by {}
        assert(na =~= expect);
    }
    0
}

/// Row `i` of a matrix, empty where it is missing.
pub open spec fn entry_row(m: Seq<Seq<usize>>, i: int) -> Seq<usize> {
    if 0 <= i < m.len() {
        m[i]
    } else {
        Seq::empty()
    }
}

/// Length of row `i` of a matrix, 0 where it is missing.
pub open spec fn entry_row_len(m: Seq<Seq<usize>>, i: int) -> int {
    entry_row(m, i).len() as int
}

/// Creates a condition variable in the lowest free id, adding an id at the
/// end when all are in use. Returns the id.
pub fn sys_condvar_create(state: &mut ProcessState) -> (id: isize)
    requires
        old(state).condvar_list.len() < isize::MAX,
    ensures
        ({
            let old_list = old(state).condvar_list@;
            &&& 0 <= id <= old_list.len()
            &&& id < old_list.len() ==> !old_list[id as int]
            &&& forall|k: int| 0 <= k < id && k < old_list.len() ==> #[trigger] old_list[k]
            &&& final(state).condvar_list@ == if id < old_list.len() {
                old_list.update(id as int, true)
            } else {
                old_list.push(true)
            }
        }),
        only_condvars_changed(*old(state), *final(state)),
{
    let mut k: usize = 0;
    while k < state.condvar_list.len()
        invariant
            k <= state.condvar_list.len(),
            state.condvar_list == old(state).condvar_list,
            old(state).condvar_list.len() < isize::MAX,
            only_condvars_changed(*old(state), *state),
            forall|p: int| 0 <= p < k ==> #[trigger] state.condvar_list@[p],
        decreases state.condvar_list.len() - k,
    {
        if !state.condvar_list[k] {
            state.condvar_list.set(k, true);
            return k as isize;
        }
        k = k + 1;
    }
    state.condvar_list.push(true);
    (state.condvar_list.len() - 1) as isize
}

/// A signal on condition variable `condvar_id`, which must exist; the wake-up
/// itself is the caller's. Returns 0.
pub fn sys_condvar_signal(state: &ProcessState, condvar_id: usize) -> (ret: isize)
    requires
        condvar_id < state.condvar_list@.len(),
        state.condvar_list@[condvar_id as int],
    ensures
        ret == 0,
{
    0
}

/// A wait on condition variable `condvar_id` releasing mutex `mutex_id`, both
/// of which must exist; the wait itself is the caller's. Returns 0.
pub fn sys_condvar_wait(state: &ProcessState, condvar_id: usize, mutex_id: usize) -> (ret: isize)
    requires
        condvar_id < state.condvar_list@.len(),
        state.condvar_list@[condvar_id as int],
        mutex_id < state.mutex_list@.len(),
        state.mutex_list@[mutex_id as int] is Some,
    ensures
        ret == 0,
{
    0
}

/// Turns deadlock detection off (0) or on (1); any other value is refused
/// with -1 and changes nothing.
pub fn sys_enable_deadlock_detect(state: &mut ProcessState, enabled: usize) -> (ret: isize)
    ensures
        ret == if enabled <= 1 {
            0isize
        } else {
            -1isize
        },
        final(state).deadlock_detect_enabled == if enabled == 0 {
            false
        } else if enabled == 1 {
            true
        } else {
            old(state).deadlock_detect_enabled
        },
        only_detection_changed(*old(state), *final(state)),
{
    if enabled == 0 {
        state.deadlock_detect_enabled = false;
        0
    } else if enabled == 1 {
        state.deadlock_detect_enabled = true;
        0
    } else {
        -1
    }
}

/// With detection on, a thread that has just taken a mutex is refused when
/// it asks for the same mutex again.
pub proof fn lemma_relock_is_refused(
    state: ProcessState,
    before: Seq<Option<usize>>,
    tid: usize,
    id: usize,
)
    requires
        id < usize::MAX,
        state.deadlock_detect_enabled,
        state.mutex_holders@ == holders_after_lock(before, tid, id),
    ensures
        mutex_lock_deadlocks(state, tid, id),
{
}

/// Letting a mutex go right after taking it leaves it without a holder and
/// every other mutex with the holder it had.
pub proof fn lemma_unlock_undoes_lock(h: Seq<Option<usize>>, tid: usize, id: usize)
    requires
        id < usize::MAX,
    ensures
        holders_after_unlock(holders_after_lock(h, tid, id), tid, id) == padded(h, id + 1).update(
            id as int,
            None,
        ),
        forall|k: int|
            0 <= k < h.len() && k != id ==> #[trigger] holders_after_unlock(
                holders_after_lock(h, tid, id),
                tid,
                id,
            )[k] == h[k],
{
    let h2 = holders_after_lock(h, tid, id);
    assert(h2.update(id as int, None) =~= padded(h, id + 1).update(id as int, None));
    assert forall|k: int| 0 <= k < h.len() && k != id implies #[trigger] holders_after_unlock(
        h2,
        tid,
        id,
    )[k] == h[k] by {
        assert(padded(h, id + 1)[k] == h[k]);
    }
}

/// Giving a unit of a semaphore back right after taking it leaves what every
/// thread holds of every semaphore as it was.
pub proof fn lemma_up_undoes_down(a: Seq<Seq<usize>>, tid: usize, sem: usize)
    requires
        entry(a, tid as int, sem as int) < usize::MAX,
    ensures
        forall|t: int, j: int|
            #[trigger] entry(alloc_after_up(alloc_after_down(a, tid as int, sem as int), tid as int, sem as int), t, j)
                == entry(a, t, j),
{
    let d = alloc_after_down(a, tid as int, sem as int);
    let u = alloc_after_up(d, tid as int, sem as int);
    assert(entry(d, tid as int, sem as int) == entry(a, tid as int, sem as int) + 1);
    assert forall|t: int, j: int| #[trigger] entry(u, t, j) == entry(a, t, j) by {
        if 0 <= t < d.len() && t != tid {
            assert(d[t] == entry_row(a, t));
        }
        if t == tid && 0 <= j < d[t].len() && j != sem {
            let row = entry_row(a, tid as int);
            if j >= row.len() {
                assert(entry(a, t, j) == 0);
            }
        }
    }
}

/// Creating a mutex keeps the holders in step with the mutexes: when there
/// was one holder slot per mutex before, there is one after, the new (or
/// reused) mutex has no holder, and every other mutex keeps its holder.
pub proof fn lemma_mutex_create_keeps_holders_aligned(
    list: Seq<Option<MutexKind>>,
    holders: Seq<Option<usize>>,
    id: int,
    kind: MutexKind,
)
    requires
        list.len() == holders.len(),
        0 <= id <= list.len(),
    ensures
        ({
            let new_list = if id < list.len() {
                list.update(id, Some(kind))
            } else {
                list.push(Some(kind))
            };
            let new_holders = if id < list.len() {
                padded(holders, id + 1).update(id, None)
            } else {
                holders.push(None)
            };
            &&& new_holders.len() == new_list.len()
            &&& new_holders[id] == None::<usize>
            &&& forall|k: int|
                0 <= k < holders.len() && k != id ==> #[trigger] new_holders[k] == holders[k]
        }),
{
}

/// A lock request is refused exactly when deadlock detection is on and the
/// requesting thread already holds the mutex it asks for: with detection off
/// nothing is refused, and a mutex held by another thread (or by nobody) is
/// granted whatever other mutexes the requester holds.
pub proof fn lemma_lock_refused_only_on_own_mutex(
    state: ProcessState,
    current_tid: usize,
    mutex_id: usize,
)
    ensures
        mutex_lock_deadlocks(state, current_tid, mutex_id) <==> (state.deadlock_detect_enabled
            && mutex_id < state.mutex_holders@.len() && state.mutex_holders@[mutex_id as int]
            == Some(current_tid)),
        !state.deadlock_detect_enabled ==> !mutex_lock_deadlocks(state, current_tid, mutex_id),
        forall|other: usize|
            other != current_tid && mutex_id < state.mutex_holders@.len()
                && state.mutex_holders@[mutex_id as int] == Some(other) ==> !mutex_lock_deadlocks(
                state,
                current_tid,
                mutex_id,
            ),
        (mutex_id >= state.mutex_holders@.len() || state.mutex_holders@[mutex_id as int] is None)
            ==> !mutex_lock_deadlocks(state, current_tid, mutex_id),
{
}

/// A down request is refused only with deadlock detection on and no unit of
/// the semaphore left: with detection off, or with a positive count, it is
/// granted for every thread, semaphore and wait queue.
pub proof fn lemma_down_refused_only_with_detection(
    state: ProcessState,
    current_tid: usize,
    sem_id: usize,
    sem_counts: Seq<isize>,
    sem_wait_queues: Seq<Seq<usize>>,
)
    ensures
        semaphore_down_checked(state, sem_id, sem_counts) <==> (state.deadlock_detect_enabled
            && sem_id < sem_counts.len() && sem_counts[sem_id as int] <= 0),
        !state.deadlock_detect_enabled ==> !semaphore_down_checked(state, sem_id, sem_counts),
        (sem_id < sem_counts.len() && sem_counts[sem_id as int] > 0) ==> !semaphore_down_checked(
            state,
            sem_id,
            sem_counts,
        ),
{
}

} // verus!
