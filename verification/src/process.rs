//! What the system calls read and change of a process: its descriptor table
//! and its synchronization objects.
use vstd::prelude::*;

verus! {

/// How a mutex waits for its holder.
#[derive(Clone, Copy, PartialEq, Eq, Debug, Structural)]
pub enum MutexKind {
    /// Spins until the mutex is free.
    Spin,
    /// Blocks the thread until the mutex is free.
    Blocking,
}

/// An open file as the descriptor table sees it: the object it stands for,
/// kept by the caller under `handle`, and whether it may be read and written.
#[derive(Clone, Copy, PartialEq, Eq, Debug, Structural)]
pub struct OpenFile {
    pub handle: usize,
    pub readable: bool,
    pub writable: bool,
}

/// The state of a process that its system calls work on. Each slot of a
/// list is the object of that id, `None` (or `false`) where the id is free.
pub struct ProcessState {
    /// Open files by descriptor.
    pub fd_table: Vec<Option<OpenFile>>,
    /// Thread slots; `true` where a thread lives.
    pub tasks: Vec<bool>,
    /// Mutexes by id.
    pub mutex_list: Vec<Option<MutexKind>>,
    /// The thread holding each mutex, if any.
    pub mutex_holders: Vec<Option<usize>>,
    /// Semaphores by id, each with the count it was created with.
    pub semaphore_list: Vec<Option<usize>>,
    /// `sem_allocation[t][j]`: units of semaphore `j` thread `t` holds.
    pub sem_allocation: Vec<Vec<usize>>,
    /// Condition variables by id.
    pub condvar_list: Vec<bool>,
    /// Whether lock and semaphore requests are checked for deadlock.
    pub deadlock_detect_enabled: bool,
}

/// The lowest free slot of a list, if there is one.
pub open spec fn is_lowest_free<T>(s: Seq<Option<T>>, k: int) -> bool {
    &&& 0 <= k < s.len()
    &&& s[k] is None
    &&& forall|p: int| 0 <= p < k ==> #[trigger] s[p] is Some
}

/// Every slot of the list is taken.
pub open spec fn all_taken<T>(s: Seq<Option<T>>) -> bool {
    forall|p: int| 0 <= p < s.len() ==> #[trigger] s[p] is Some
}

/// The lowest free slot of `slots`, or `None` when every slot is taken.
pub fn lowest_free_slot<T>(slots: &Vec<Option<T>>) -> (slot: Option<usize>)
    ensures
        match slot {
            Some(k) => is_lowest_free(slots@, k as int),
            None => all_taken(slots@),
        },
{
    let mut k: usize = 0;
    while k < slots.len()
        invariant
            k <= slots.len(),
            forall|p: int| 0 <= p < k ==> #[trigger] slots@[p] is Some,
        decreases slots.len() - k,
    {
        if slots[k].is_none() {
            return Some(k);
        }
        k = k + 1;
    }
    None
}

/// Number of live threads.
pub open spec fn live_threads(tasks: Seq<bool>) -> nat
    decreases tasks.len(),
{
    if tasks.len() == 0 {
        0
    } else {
        live_threads(tasks.drop_last()) + if tasks.last() {
            1nat
        } else {
            0nat
        }
    }
}

proof fn lemma_live_threads_bound(tasks: Seq<bool>)
    ensures
        live_threads(tasks) <= tasks.len(),
    decreases tasks.len(),
{
    if tasks.len() > 0 {
        lemma_live_threads_bound(tasks.drop_last());
    }
}

/// Counts the live threads.
pub fn count_live_threads(tasks: &Vec<bool>) -> (count: usize)
    ensures
        count == live_threads(tasks@),
{
    let mut count: usize = 0;
    let mut k: usize = 0;
    while k < tasks.len()
        invariant
            k <= tasks.len(),
            count == live_threads(tasks@.take(k as int)),
        decreases tasks.len() - k,
    {
        proof {
            assert(tasks@.take(k + 1).drop_last() =~= tasks@.take(k as int));
            lemma_live_threads_bound(tasks@.take(k as int));
        }
        if tasks[k] {
            count = count + 1;
        }
        k = k + 1;
    }
    proof {
        assert(tasks@.take(tasks.len() as int) =~= tasks@);
    }
    count
}

/// Only the descriptor table differs between `a` and `b`.
pub open spec fn only_fds_changed(a: ProcessState, b: ProcessState) -> bool {
    &&& a.tasks == b.tasks
    &&& a.mutex_list == b.mutex_list
    &&& a.mutex_holders == b.mutex_holders
    &&& a.semaphore_list == b.semaphore_list
    &&& a.sem_allocation == b.sem_allocation
    &&& a.condvar_list == b.condvar_list
    &&& a.deadlock_detect_enabled == b.deadlock_detect_enabled
}

/// Only the mutexes and their holders differ between `a` and `b`.
pub open spec fn only_mutexes_changed(a: ProcessState, b: ProcessState) -> bool {
    &&& a.fd_table == b.fd_table
    &&& a.tasks == b.tasks
    &&& a.semaphore_list == b.semaphore_list
    &&& a.sem_allocation == b.sem_allocation
    &&& a.condvar_list == b.condvar_list
    &&& a.deadlock_detect_enabled == b.deadlock_detect_enabled
}

/// Only the semaphores and what the threads hold of them differ between `a`
/// and `b`.
pub open spec fn only_semaphores_changed(a: ProcessState, b: ProcessState) -> bool {
    &&& a.fd_table == b.fd_table
    &&& a.tasks == b.tasks
    &&& a.mutex_list == b.mutex_list
    &&& a.mutex_holders == b.mutex_holders
    &&& a.condvar_list == b.condvar_list
    &&& a.deadlock_detect_enabled == b.deadlock_detect_enabled
}

/// Only the condition variables differ between `a` and `b`.
pub open spec fn only_condvars_changed(a: ProcessState, b: ProcessState) -> bool {
    &&& a.fd_table == b.fd_table
    &&& a.tasks == b.tasks
    &&& a.mutex_list == b.mutex_list
    &&& a.mutex_holders == b.mutex_holders
    &&& a.semaphore_list == b.semaphore_list
    &&& a.sem_allocation == b.sem_allocation
    &&& a.deadlock_detect_enabled == b.deadlock_detect_enabled
}

/// Only the deadlock-detection switch differs between `a` and `b`.
pub open spec fn only_detection_changed(a: ProcessState, b: ProcessState) -> bool {
    &&& a.fd_table == b.fd_table
    &&& a.tasks == b.tasks
    &&& a.mutex_list == b.mutex_list
    &&& a.mutex_holders == b.mutex_holders
    &&& a.semaphore_list == b.semaphore_list
    &&& a.sem_allocation == b.sem_allocation
    &&& a.condvar_list == b.condvar_list
}

} // verus!
