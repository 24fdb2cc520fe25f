//! File and filesystem system calls: the checks on descriptors and names,
//! and the changes to the descriptor table.
use vstd::prelude::*;
use crate::process::{
    OpenFile, ProcessState, is_lowest_free, all_taken, lowest_free_slot, only_fds_changed,
};

verus! {

/// The open file behind `fd`, if the descriptor is in use.
pub open spec fn file_at(fd_table: Seq<Option<OpenFile>>, fd: usize) -> Option<OpenFile> {
    if fd < fd_table.len() {
        fd_table[fd as int]
    } else {
        None
    }
}

/// Checks a write through `fd`: the file to write to, or `None` when the
/// descriptor is out of range, not in use, or not writable (the call then
/// fails with -1).
pub fn sys_write(state: &ProcessState, fd: usize) -> (file: Option<OpenFile>)
    ensures
        file == match file_at(state.fd_table@, fd) {
            Some(f) => if f.writable {
                Some(f)
            } else {
                None
            },
            None => None,
        },
{
    if fd >= state.fd_table.len() {
        return None;
    }
    match state.fd_table[fd] {
        Some(file) => {
            if !file.writable {
                return None;
            }
            Some(file)
        },
        None => None,
    }
}

/// Checks a read through `fd`: the file to read from, or `None` when the
/// descriptor is out of range, not in use, or not readable (the call then
/// fails with -1).
pub fn sys_read(state: &ProcessState, fd: usize) -> (file: Option<OpenFile>)
    ensures
        file == match file_at(state.fd_table@, fd) {
            Some(f) => if f.readable {
                Some(f)
            } else {
                None
            },
            None => None,
        },
{
    if fd >= state.fd_table.len() {
        return None;
    }
    match state.fd_table[fd] {
        Some(file) => {
            if !file.readable {
                return None;
            }
            Some(file)
        },
        None => None,
    }
}

/// The open file behind `fd`, whose metadata `fstat` reports, or `None`
/// when the descriptor is out of range or not in use (the call then fails
/// with -1).
pub fn sys_fstat(state: &ProcessState, fd: usize) -> (file: Option<OpenFile>)
    ensures
        file == file_at(state.fd_table@, fd),
{
    if fd >= state.fd_table.len() {
        return None;
    }
    state.fd_table[fd]
}

/// The status of a file as `sys_fstat` hands it to the user: device (always
/// 0), inode number, mode bits and number of hard links.
#[derive(Clone, Copy, PartialEq, Eq, Debug, Structural)]
pub struct Stat {
    pub dev: u64,
    pub ino: u64,
    pub mode: u32,
    pub nlink: u32,
}

/// Bytes in the user's status record: the four fields, then seven unused
/// 64-bit words.
pub const STAT_SIZE: usize = 80;

/// The status record for a file whose metadata is `info` (inode number,
/// mode, link count), or `None` when the file has none (it is not a regular
/// file; the call then fails with -1).
pub fn fstat_record(info: Option<(u64, u32, u32)>) -> (st: Option<Stat>)
    ensures
        st == match info {
            Some((ino, mode, nlink)) => Some(Stat { dev: 0, ino, mode, nlink }),
            None => None,
        },
{
    match info {
        Some((ino, mode, nlink)) => Some(Stat { dev: 0, ino, mode, nlink }),
        None => None,
    }
}

/// Byte `k` of `v`, counting from the least significant.
pub open spec fn le_byte(v: u64, k: u64) -> u8 {
    ((v >> (8 * k)) & 0xff) as u8
}

/// Appends the `n` low bytes of `v`, least significant first.
fn push_le_bytes(bytes: &mut Vec<u8>, v: u64, n: u64)
    requires
        n <= 8,
    ensures
        final(bytes)@ == old(bytes)@ + Seq::new(n as nat, |k: int| le_byte(v, k as u64)),
{
    let ghost start = bytes@;
    let mut k: u64 = 0;
    while k < n
        invariant
            k <= n,
            n <= 8,
            bytes@ =~= start + Seq::new(k as nat, |i: int| le_byte(v, i as u64)),
        decreases n - k,
    {
        bytes.push(((v >> (8 * k)) & 0xff) as u8);
        k = k + 1;
    }
}

impl Stat {
    /// The record as the user reads it on a little-endian machine: `dev`,
    /// `ino`, `mode` and `nlink` in that order, each least significant byte
    /// first, then 56 zero bytes.
    pub fn to_bytes(&self) -> (bytes: Vec<u8>)
        ensures
            bytes@.len() == STAT_SIZE,
            forall|k: int| 0 <= k < 8 ==> #[trigger] bytes@[k] == le_byte(self.dev, k as u64),
            forall|k: int| 0 <= k < 8 ==> #[trigger] bytes@[8 + k] == le_byte(self.ino, k as u64),
            forall|k: int|
                0 <= k < 4 ==> #[trigger] bytes@[16 + k] == le_byte(self.mode as u64, k as u64),
            forall|k: int|
                0 <= k < 4 ==> #[trigger] bytes@[20 + k] == le_byte(self.nlink as u64, k as u64),
            forall|k: int| 24 <= k < STAT_SIZE ==> #[trigger] bytes@[k] == 0,
    {
        let mut bytes: Vec<u8> = Vec::new();
        push_le_bytes(&mut bytes, self.dev, 8);
        push_le_bytes(&mut bytes, self.ino, 8);
        push_le_bytes(&mut bytes, self.mode as u64, 4);
        push_le_bytes(&mut bytes, self.nlink as u64, 4);
        let ghost head = bytes@;
        let mut k: usize = 24;
        while k < STAT_SIZE
            invariant
                24 <= k <= STAT_SIZE,
                bytes@.len() == k,
                forall|i: int| 0 <= i < 24 ==> #[trigger] bytes@[i] == head[i],
                forall|i: int| 24 <= i < k ==> #[trigger] bytes@[i] == 0,
            decreases STAT_SIZE - k,
        {
            bytes.push(0);
            k = k + 1;
        }
        bytes
    }
}

/// Installs a file that was opened (`opened`, or `None` when opening failed)
/// in the lowest free descriptor, adding one at the end when all are in use.
/// Returns the descriptor, or -1 when there is no file.
pub fn sys_open(state: &mut ProcessState, opened: Option<OpenFile>) -> (fd: isize)
    requires
        old(state).fd_table.len() < isize::MAX,
    ensures
        opened is None ==> fd == -1 && final(state).fd_table@ == old(state).fd_table@,
        opened matches Some(file) ==> {
            let old_table = old(state).fd_table@;
            let new_table = final(state).fd_table@;
            &&& 0 <= fd <= old_table.len()
            &&& fd < old_table.len() ==> is_lowest_free(old_table, fd as int)
            &&& fd == old_table.len() ==> all_taken(old_table)
            &&& new_table.len() == if fd < old_table.len() {
                old_table.len()
            } else {
                old_table.len() + 1
            }
            &&& new_table[fd as int] == Some(file)
            &&& forall|k: int| 0 <= k < old_table.len() && k != fd ==> new_table[k] == old_table[k]
        },
        only_fds_changed(*old(state), *final(state)),
{
    match opened {
        Some(file) => {
            let fd: usize = match lowest_free_slot(&state.fd_table) {
                Some(k) => k,
                None => {
                    state.fd_table.push(None);
                    state.fd_table.len() - 1
                },
            };
            state.fd_table.set(fd, Some(file));
            fd as isize
        },
        None => -1,
    }
}

/// Closes `fd`: 0 when it was in use (it is free afterwards), -1 when it is
/// out of range or already free (nothing changes).
pub fn sys_close(state: &mut ProcessState, fd: usize) -> (ret: isize)
    ensures
        ret == if file_at(old(state).fd_table@, fd) is Some {
            0isize
        } else {
            -1isize
        },
        ret == 0 ==> final(state).fd_table@ == old(state).fd_table@.update(fd as int, None),
        ret == -1 ==> final(state).fd_table@ == old(state).fd_table@,
        only_fds_changed(*old(state), *final(state)),
{
    if fd >= state.fd_table.len() {
        return -1;
    }
    if state.fd_table[fd].is_none() {
        return -1;
    }
    state.fd_table.set(fd, None);
    0
}

/// Checks a hard-link request between two names of the root directory:
/// `true` when the link may be attempted, `false` (the call fails with -1)
/// when both names are the same.
pub fn sys_linkat(old_name: &String, new_name: &String) -> (attempt: bool)
    ensures
        attempt == (old_name@ != new_name@),
{
    !(*old_name == *new_name)
}

/// A descriptor that `sys_open` filled leads to the file it was opened for,
/// so reads and writes through it reach that file as far as it allows them;
/// once `sys_close` has freed it, it leads nowhere.
pub proof fn lemma_descriptor_round_trip(table: Seq<Option<OpenFile>>, fd: usize, file: OpenFile)
    requires
        fd < table.len(),
        table[fd as int] == Some(file),
    ensures
        file_at(table, fd) == Some(file),
        file_at(table.update(fd as int, None), fd) is None,
{
}

} // verus!
