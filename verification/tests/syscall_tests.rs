use oskernel::process::{MutexKind, OpenFile, ProcessState};
use oskernel::sys_fs::{
    fstat_record, sys_close, sys_linkat, sys_open, sys_read, sys_write, Stat, STAT_SIZE,
};
use oskernel::sys_process::{
    sys_get_time, sys_mmap, sys_munmap, sys_sbrk, sys_trace, trace_access_allowed, MapPerm,
    MapStep, PteFlags, TraceStep,
};
use oskernel::sys_sync::{
    mutex_lock_acquired, semaphore_down_acquired, sys_condvar_create, sys_condvar_signal,
    sys_condvar_wait, sys_enable_deadlock_detect, sys_mutex_create, sys_mutex_lock,
    sys_mutex_unlock, sys_semaphore_create, sys_semaphore_down, sys_semaphore_up, sys_sleep,
    DownStep, LockStep, DEADLOCK_DETECTED,
};

fn empty_state() -> ProcessState {
    ProcessState {
        fd_table: Vec::new(),
        tasks: vec![true, true],
        mutex_list: Vec::new(),
        mutex_holders: Vec::new(),
        semaphore_list: Vec::new(),
        sem_allocation: vec![Vec::new(), Vec::new()],
        condvar_list: Vec::new(),
        deadlock_detect_enabled: false,
    }
}

fn file(handle: usize, readable: bool, writable: bool) -> OpenFile {
    OpenFile { handle, readable, writable }
}

#[test]
fn open_uses_lowest_free_descriptor() {
    let mut st = empty_state();
    assert_eq!(sys_open(&mut st, Some(file(10, true, false))), 0);
    assert_eq!(sys_open(&mut st, Some(file(11, false, true))), 1);
    assert_eq!(sys_open(&mut st, Some(file(12, true, true))), 2);
    assert_eq!(sys_close(&mut st, 1), 0);
    assert_eq!(sys_open(&mut st, Some(file(13, true, true))), 1);
    assert_eq!(st.fd_table.len(), 3);
    assert_eq!(sys_open(&mut st, None), -1);
    assert_eq!(st.fd_table.len(), 3);
}

#[test]
fn read_and_write_check_descriptor_and_mode() {
    let mut st = empty_state();
    sys_open(&mut st, Some(file(10, true, false)));
    sys_open(&mut st, Some(file(11, false, true)));
    assert_eq!(sys_read(&st, 0), Some(file(10, true, false)));
    assert_eq!(sys_write(&st, 0), None);
    assert_eq!(sys_write(&st, 1), Some(file(11, false, true)));
    assert_eq!(sys_read(&st, 1), None);
    assert_eq!(sys_read(&st, 7), None);
    assert_eq!(sys_write(&st, 7), None);
}

#[test]
fn close_frees_descriptor_once() {
    let mut st = empty_state();
    sys_open(&mut st, Some(file(10, true, true)));
    assert_eq!(sys_close(&mut st, 0), 0);
    assert_eq!(sys_close(&mut st, 0), -1);
    assert_eq!(sys_close(&mut st, 5), -1);
    assert_eq!(sys_read(&st, 0), None);
}

#[test]
fn linkat_refuses_same_name() {
    assert!(!sys_linkat(&"a".to_string(), &"a".to_string()));
    assert!(sys_linkat(&"a".to_string(), &"b".to_string()));
}

#[test]
fn get_time_splits_microseconds() {
    let tv = sys_get_time(3_250_000);
    assert_eq!(tv.sec, 3);
    assert_eq!(tv.usec, 250_000);
    let tv = sys_get_time(999_999);
    assert_eq!((tv.sec, tv.usec), (0, 999_999));
}

#[test]
fn trace_decodes_requests() {
    assert_eq!(sys_trace(2, 64, 0), TraceStep::SyscallCount { id: 64 });
    assert_eq!(sys_trace(0, 0x1000, 0), TraceStep::ReadByte { va: 0x1000 });
    assert_eq!(sys_trace(1, 0x1000, 0x1ff), TraceStep::WriteByte { va: 0x1000, value: 0xff });
    assert_eq!(sys_trace(3, 0, 0), TraceStep::Fail);
}

#[test]
fn trace_access_needs_valid_user_page() {
    let all = PteFlags { valid: true, user: true, readable: true, writable: true };
    assert!(trace_access_allowed(false, Some(all)));
    assert!(trace_access_allowed(true, Some(all)));
    assert!(!trace_access_allowed(false, None));
    assert!(!trace_access_allowed(false, Some(PteFlags { user: false, ..all })));
    assert!(!trace_access_allowed(false, Some(PteFlags { valid: false, ..all })));
    assert!(!trace_access_allowed(true, Some(PteFlags { writable: false, ..all })));
    assert!(!trace_access_allowed(false, Some(PteFlags { readable: false, ..all })));
}

#[test]
fn mmap_checks_arguments() {
    assert_eq!(sys_mmap(4097, 10, 1), MapStep::Fail);
    assert_eq!(sys_mmap(4096, 10, 0), MapStep::Fail);
    assert_eq!(sys_mmap(4096, 10, 8), MapStep::Fail);
    assert_eq!(sys_mmap(4096, 0, 1), MapStep::Done);
    assert_eq!(sys_mmap(usize::MAX - 4095, 4096, 1), MapStep::Fail);
    assert_eq!(
        sys_mmap(8192, 100, 5),
        MapStep::MapRange {
            start: 8192,
            end: 8292,
            perm: MapPerm { readable: true, writable: false, executable: true },
        }
    );
    assert_eq!(
        sys_mmap(0, 4096, 6),
        MapStep::MapRange {
            start: 0,
            end: 4096,
            perm: MapPerm { readable: false, writable: true, executable: true },
        }
    );
}

#[test]
fn munmap_checks_arguments() {
    assert_eq!(sys_munmap(12, 10), MapStep::Fail);
    assert_eq!(sys_munmap(4096, 0), MapStep::Done);
    assert_eq!(sys_munmap(usize::MAX - 4095, 4096), MapStep::Fail);
    assert_eq!(sys_munmap(4096, 4096), MapStep::UnmapRange { start: 4096, end: 8192 });
}

#[test]
fn sbrk_reports_old_break() {
    assert_eq!(sys_sbrk(Some(0x4000)), 0x4000);
    assert_eq!(sys_sbrk(None), -1);
}

#[test]
fn sleep_computes_expiry() {
    assert_eq!(sys_sleep(1000, 250), 1250);
}

#[test]
fn mutex_create_reuses_free_ids() {
    let mut st = empty_state();
    assert_eq!(sys_mutex_create(&mut st, false), 0);
    assert_eq!(sys_mutex_create(&mut st, true), 1);
    assert_eq!(st.mutex_list, vec![Some(MutexKind::Spin), Some(MutexKind::Blocking)]);
    assert_eq!(st.mutex_holders, vec![None, None]);
    st.mutex_list[0] = None;
    st.mutex_holders = vec![];
    assert_eq!(sys_mutex_create(&mut st, true), 0);
    assert_eq!(st.mutex_list[0], Some(MutexKind::Blocking));
    assert_eq!(st.mutex_holders, vec![None]);
}

#[test]
fn relocking_own_mutex_is_a_deadlock() {
    let mut st = empty_state();
    sys_mutex_create(&mut st, true);
    assert_eq!(sys_enable_deadlock_detect(&mut st, 1), 0);
    assert_eq!(sys_mutex_lock(&st, 0, 0), LockStep::Acquire);
    assert_eq!(mutex_lock_acquired(&mut st, 0, 0), 0);
    assert_eq!(st.mutex_holders, vec![Some(0)]);
    assert_eq!(sys_mutex_lock(&st, 0, 0), LockStep::DeadlockDetected);
    assert_eq!(sys_mutex_lock(&st, 1, 0), LockStep::Acquire);
    assert_eq!(DEADLOCK_DETECTED, -0xDEAD);
    // Without detection the request goes through.
    assert_eq!(sys_enable_deadlock_detect(&mut st, 0), 0);
    assert_eq!(sys_mutex_lock(&st, 0, 0), LockStep::Acquire);
}

#[test]
fn unlock_clears_only_own_hold() {
    let mut st = empty_state();
    sys_mutex_create(&mut st, false);
    mutex_lock_acquired(&mut st, 0, 0);
    assert_eq!(sys_mutex_unlock(&mut st, 1, 0), 0);
    assert_eq!(st.mutex_holders, vec![Some(0)]);
    assert_eq!(sys_mutex_unlock(&mut st, 0, 0), 0);
    assert_eq!(st.mutex_holders, vec![None]);
}

#[test]
fn enable_deadlock_detect_rejects_other_values() {
    let mut st = empty_state();
    assert_eq!(sys_enable_deadlock_detect(&mut st, 1), 0);
    assert!(st.deadlock_detect_enabled);
    assert_eq!(sys_enable_deadlock_detect(&mut st, 2), -1);
    assert!(st.deadlock_detect_enabled);
    assert_eq!(sys_enable_deadlock_detect(&mut st, 0), 0);
    assert!(!st.deadlock_detect_enabled);
}

#[test]
fn semaphore_create_extends_allocation_rows() {
    let mut st = empty_state();
    assert_eq!(sys_semaphore_create(&mut st, 2), 0);
    assert_eq!(sys_semaphore_create(&mut st, 1), 1);
    assert_eq!(st.semaphore_list, vec![Some(2), Some(1)]);
    assert_eq!(st.sem_allocation, vec![vec![0, 0], vec![0, 0]]);
    st.semaphore_list[0] = None;
    st.sem_allocation[0][0] = 4;
    st.sem_allocation[1] = vec![];
    assert_eq!(sys_semaphore_create(&mut st, 5), 0);
    assert_eq!(st.semaphore_list, vec![Some(5), Some(1)]);
    assert_eq!(st.sem_allocation, vec![vec![0, 0], vec![0]]);
}

#[test]
fn semaphore_down_then_up_restores_holdings() {
    let mut st = empty_state();
    sys_semaphore_create(&mut st, 1);
    assert_eq!(semaphore_down_acquired(&mut st, 3, 2), 0);
    assert_eq!(st.sem_allocation, vec![vec![0], vec![0], vec![], vec![0, 0, 1]]);
    assert_eq!(sys_semaphore_up(&mut st, 3, 2), 0);
    assert_eq!(st.sem_allocation, vec![vec![0], vec![0], vec![], vec![0, 0, 0]]);
    // Nothing held: up changes nothing.
    assert_eq!(sys_semaphore_up(&mut st, 3, 2), 0);
    assert_eq!(st.sem_allocation, vec![vec![0], vec![0], vec![], vec![0, 0, 0]]);
}

#[test]
fn semaphore_down_detects_cycle() {
    let mut st = empty_state();
    sys_semaphore_create(&mut st, 1);
    sys_semaphore_create(&mut st, 1);
    sys_enable_deadlock_detect(&mut st, 1);
    semaphore_down_acquired(&mut st, 0, 0);
    semaphore_down_acquired(&mut st, 1, 1);
    // Thread 0 waits for semaphore 1; thread 1 now asks for semaphore 0.
    let counts = [0isize, -1];
    let queues = vec![vec![], vec![0]];
    assert_eq!(sys_semaphore_down(&st, 1, 0, &counts, &queues), DownStep::DeadlockDetected);
    // A semaphore with a unit left is not checked.
    let counts = [1isize, -1];
    assert_eq!(sys_semaphore_down(&st, 1, 0, &counts, &queues), DownStep::Acquire);
    // Without waiters there is no cycle.
    let counts = [0isize, 0];
    let queues = vec![vec![], vec![]];
    assert_eq!(sys_semaphore_down(&st, 1, 0, &counts, &queues), DownStep::Acquire);
}

#[test]
fn condvar_create_reuses_free_ids() {
    let mut st = empty_state();
    assert_eq!(sys_condvar_create(&mut st), 0);
    assert_eq!(sys_condvar_create(&mut st), 1);
    st.condvar_list[0] = false;
    assert_eq!(sys_condvar_create(&mut st), 0);
    assert_eq!(st.condvar_list, vec![true, true]);
    sys_mutex_create(&mut st, true);
    assert_eq!(sys_condvar_signal(&st, 1), 0);
    assert_eq!(sys_condvar_wait(&st, 1, 0), 0);
}

#[test]
fn fstat_finds_open_file_whatever_its_mode() {
    let mut st = empty_state();
    sys_open(&mut st, Some(file(4, false, false)));
    assert_eq!(oskernel::sys_fs::sys_fstat(&st, 0), Some(file(4, false, false)));
    assert_eq!(oskernel::sys_fs::sys_fstat(&st, 1), None);
    sys_close(&mut st, 0);
    assert_eq!(oskernel::sys_fs::sys_fstat(&st, 0), None);
}

#[test]
fn fstat_record_has_zero_device() {
    assert_eq!(fstat_record(None), None);
    assert_eq!(
        fstat_record(Some((12, 0o100000, 2))),
        Some(Stat { dev: 0, ino: 12, mode: 0o100000, nlink: 2 })
    );
}

#[test]
fn stat_bytes_layout() {
    let st = Stat { dev: 0, ino: 0x0102030405060708, mode: 0x0a0b0c0d, nlink: 3 };
    let bytes = st.to_bytes();
    assert_eq!(bytes.len(), STAT_SIZE);
    assert_eq!(&bytes[0..8], &[0u8; 8]);
    assert_eq!(&bytes[8..16], &[8, 7, 6, 5, 4, 3, 2, 1]);
    assert_eq!(&bytes[16..20], &[0x0d, 0x0c, 0x0b, 0x0a]);
    assert_eq!(&bytes[20..24], &[3, 0, 0, 0]);
    assert!(bytes[24..].iter().all(|b| *b == 0));
}
