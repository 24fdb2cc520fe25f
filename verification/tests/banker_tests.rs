use oskernel::banker::is_safe;
use oskernel::deadlock::{
    check_mutex_deadlock_safe, check_semaphore_deadlock_with_queues, check_semaphore_units_fit,
};

#[test]
fn no_threads_is_safe() {
    assert!(is_safe(&[1, 2], &[], &[]));
}

#[test]
fn textbook_safe_state() {
    // Five threads, three resources: a safe order exists (1, 3, 4, 0, 2).
    let available = [3usize, 3, 2];
    let allocation = vec![
        vec![0, 1, 0],
        vec![2, 0, 0],
        vec![3, 0, 2],
        vec![2, 1, 1],
        vec![0, 0, 2],
    ];
    let need = vec![
        vec![7, 4, 3],
        vec![1, 2, 2],
        vec![6, 0, 0],
        vec![0, 1, 1],
        vec![4, 3, 1],
    ];
    assert!(is_safe(&available, &allocation, &need));
}

#[test]
fn textbook_unsafe_state() {
    let available = [0usize, 0];
    let allocation = vec![vec![1, 0], vec![0, 1]];
    let need = vec![vec![0, 1], vec![1, 0]];
    assert!(!is_safe(&available, &allocation, &need));
}

#[test]
fn finishing_one_thread_frees_another() {
    let available = [0usize];
    let allocation = vec![vec![1], vec![0]];
    let need = vec![vec![0], vec![1]];
    assert!(is_safe(&available, &allocation, &need));
}

#[test]
fn missing_rows_and_columns_count_as_zero() {
    // The need matrix has fewer rows and shorter rows than the allocation.
    let available = [1usize, 0];
    let allocation = vec![vec![0, 1], vec![], vec![1]];
    let need = vec![vec![1]];
    assert!(is_safe(&available, &allocation, &need));
    let need_too_much = vec![vec![0, 2]];
    assert!(!is_safe(&available, &allocation, &need_too_much));
}

#[test]
fn mutex_check_refuses_only_own_mutex() {
    // Thread 7 holds mutex 0, thread 8 holds mutex 1.
    let holders = [Some(7usize), Some(8), None];
    assert!(!check_mutex_deadlock_safe(2, 3, 7, 0, &holders));
    assert!(check_mutex_deadlock_safe(2, 3, 7, 1, &holders));
    assert!(check_mutex_deadlock_safe(2, 3, 7, 2, &holders));
    assert!(check_mutex_deadlock_safe(2, 3, 9, 0, &holders));
}

#[test]
fn mutex_check_trivial_cases() {
    let holders = [Some(1usize)];
    assert!(check_mutex_deadlock_safe(0, 1, 1, 0, &holders));
    assert!(check_mutex_deadlock_safe(1, 0, 1, 0, &holders));
    // A mutex id beyond the count is never refused.
    assert!(check_mutex_deadlock_safe(1, 1, 1, 5, &holders));
}

#[test]
fn semaphore_check_detects_cycle() {
    // Thread 0 holds semaphore 0 and waits for 1; thread 1 holds 1 and now
    // asks for 0.
    let available = [0isize, 0];
    let allocation = vec![vec![1, 0], vec![0, 1]];
    let queues = vec![vec![], vec![0]];
    assert!(!check_semaphore_deadlock_with_queues(2, 1, 0, &available, &allocation, &queues));
}

#[test]
fn semaphore_check_allows_without_cycle() {
    // Thread 0 holds semaphore 0 and waits for nothing; thread 1 asks for 0.
    let available = [0isize, 1];
    let allocation = vec![vec![1, 0], vec![0, 0]];
    let queues = vec![vec![], vec![]];
    assert!(check_semaphore_deadlock_with_queues(2, 1, 0, &available, &allocation, &queues));
    assert!(check_semaphore_deadlock_with_queues(0, 1, 0, &[], &[], &[]));
}

#[test]
fn semaphore_check_counts_requester_not_in_table() {
    // The requester (tid 5) holds nothing and is not in the allocation table.
    let available = [-1isize];
    let allocation = vec![vec![1]];
    let queues = vec![vec![]];
    assert!(check_semaphore_deadlock_with_queues(1, 5, 0, &available, &allocation, &queues));
}

#[test]
fn semaphore_check_without_waiters_refuses_only_self_hold() {
    let available = [0isize];
    let allocation = vec![vec![1], vec![0]];
    let queues = vec![vec![]];
    // Thread 0 holds the only unit and asks again.
    assert!(!check_semaphore_deadlock_with_queues(1, 0, 0, &available, &allocation, &queues));
    // Thread 1 asks while thread 0 holds it: thread 0 can finish first.
    assert!(check_semaphore_deadlock_with_queues(1, 1, 0, &available, &allocation, &queues));
}

#[test]
fn semaphore_units_fit_detects_overflow() {
    let allocation = vec![vec![usize::MAX], vec![1]];
    let queues = vec![vec![]];
    assert!(!check_semaphore_units_fit(1, 0, &[0], &allocation, &queues));
    let allocation = vec![vec![3], vec![1]];
    assert!(check_semaphore_units_fit(1, 0, &[isize::MAX], &allocation, &queues));
}
