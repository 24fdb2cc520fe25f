use oskernel::scheduler::{ReadyTask, TaskManager, BIG_STRIDE};

fn task(id: usize, stride: usize, priority: usize) -> ReadyTask {
    ReadyTask { id, stride, priority }
}

#[test]
fn fetch_from_empty_queue() {
    let mut m = TaskManager::new();
    assert_eq!(m.fetch(), None);
}

#[test]
fn fetch_picks_smallest_stride_first_in_ties() {
    let mut m = TaskManager::new();
    m.add(task(1, 10, 16));
    m.add(task(2, 4, 16));
    m.add(task(3, 4, 8));
    let t = m.fetch().unwrap();
    assert_eq!(t.id, 2);
    assert_eq!(t.stride, 4 + BIG_STRIDE / 16);
    let t = m.fetch().unwrap();
    assert_eq!(t.id, 3);
    assert_eq!(t.stride, 4 + BIG_STRIDE / 8);
    let t = m.fetch().unwrap();
    assert_eq!(t.id, 1);
    assert_eq!(m.fetch(), None);
}

#[test]
fn low_priority_counts_as_two() {
    let mut m = TaskManager::new();
    m.add(task(7, 0, 0));
    assert_eq!(m.fetch().unwrap().stride, BIG_STRIDE / 2);
    m.add(task(8, 0, 1));
    assert_eq!(m.fetch().unwrap().stride, BIG_STRIDE / 2);
}

#[test]
fn stride_wraps_around() {
    let mut m = TaskManager::new();
    m.add(task(9, usize::MAX, 2));
    assert_eq!(m.fetch().unwrap().stride, BIG_STRIDE / 2 - 1);
}

#[test]
fn higher_priority_runs_more_often() {
    let mut m = TaskManager::new();
    m.add(task(1, 0, 2));
    m.add(task(2, 0, 8));
    let mut runs = [0usize; 3];
    for _ in 0..50 {
        let t = m.fetch().unwrap();
        runs[t.id] += 1;
        m.add(t);
    }
    assert_eq!(runs[1] + runs[2], 50);
    assert!(runs[2] >= 3 * runs[1]);
}
