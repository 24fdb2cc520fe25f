//! Process management system calls: argument checks and the values they
//! compute; the page-table and timer work they lead to is the caller's.
use vstd::prelude::*;

verus! {

/// Bytes in a page.
pub const PAGE_SIZE: usize = 4096;

/// Seconds and microseconds, as `sys_get_time` hands them to the user.
pub struct TimeVal {
    pub sec: usize,
    pub usec: usize,
}

/// Splits a time in microseconds into whole seconds and the microseconds
/// left over.
pub fn sys_get_time(us: usize) -> (tv: TimeVal)
    ensures
        tv.sec == us / 1_000_000,
        tv.usec == us % 1_000_000,
        tv.usec < 1_000_000,
        tv.sec * 1_000_000 + tv.usec == us,
{
    TimeVal { sec: us / 1_000_000, usec: us % 1_000_000 }
}

/// What a `sys_trace` request asks for.
#[derive(Clone, Copy, PartialEq, Eq, Debug, Structural)]
pub enum TraceStep {
    /// How often the current task made system call `id`.
    SyscallCount { id: usize },
    /// The user byte at `va`.
    ReadByte { va: usize },
    /// Store `value` at user address `va`.
    WriteByte { va: usize, value: u8 },
    /// Unknown request: the call fails with -1.
    Fail,
}

/// Decodes a trace request: 0 reads the byte at `id`, 1 writes the low byte
/// of `data` there, 2 counts the calls of system call `id`.
pub fn sys_trace(trace_request: usize, id: usize, data: usize) -> (step: TraceStep)
    ensures
        step == if trace_request == 2 {
            TraceStep::SyscallCount { id }
        } else if trace_request == 0 {
            TraceStep::ReadByte { va: id }
        } else if trace_request == 1 {
            TraceStep::WriteByte { va: id, value: data as u8 }
        } else {
            TraceStep::Fail
        },
{
    if trace_request == 2 {
        TraceStep::SyscallCount { id }
    } else if trace_request == 0 {
        TraceStep::ReadByte { va: id }
    } else if trace_request == 1 {
        TraceStep::WriteByte { va: id, value: data as u8 }
    } else {
        TraceStep::Fail
    }
}

/// The flags of a page-table entry that a trace access looks at.
#[derive(Clone, Copy, PartialEq, Eq, Debug, Structural)]
pub struct PteFlags {
    pub valid: bool,
    pub user: bool,
    pub readable: bool,
    pub writable: bool,
}

/// Whether a traced read (`write == false`) or write may go through the
/// page-table entry found for the address (`None` when it is unmapped): the
/// entry must be valid, user-accessible, and readable or writable.
pub fn trace_access_allowed(write: bool, pte: Option<PteFlags>) -> (allowed: bool)
    ensures
        allowed == match pte {
            Some(f) => f.valid && f.user && if write {
                f.writable
            } else {
                f.readable
            },
            None => false,
        },
{
    match pte {
        Some(flags) => {
            if !flags.valid || !flags.user {
                return false;
            }
            if !write {
                flags.readable
            } else {
                flags.writable
            }
        },
        None => false,
    }
}

/// Permissions of a mapping made for the user.
#[derive(Clone, Copy, PartialEq, Eq, Debug, Structural)]
pub struct MapPerm {
    pub readable: bool,
    pub writable: bool,
    pub executable: bool,
}

/// What a map or unmap request comes to.
#[derive(Clone, Copy, PartialEq, Eq, Debug, Structural)]
pub enum MapStep {
    /// Bad arguments: the call fails with -1.
    Fail,
    /// Nothing to do: the call returns 0.
    Done,
    /// Map `[start, end)` for the user with `perm`.
    MapRange { start: usize, end: usize, perm: MapPerm },
    /// Unmap `[start, end)`.
    UnmapRange { start: usize, end: usize },
}

/// Checks a map request: `start` must be page aligned, `port` a non-empty
/// set of the read (1), write (2) and execute (4) bits, and `start + len`
/// must not overflow; an empty length maps nothing.
pub fn sys_mmap(start: usize, len: usize, port: usize) -> (step: MapStep)
    ensures
        step == if start % PAGE_SIZE != 0 {
            MapStep::Fail
        } else if port >= 8 || port == 0 {
            MapStep::Fail
        } else if len == 0 {
            MapStep::Done
        } else if start + len > usize::MAX {
            MapStep::Fail
        } else {
            MapStep::MapRange {
                start,
                end: (start + len) as usize,
                perm: MapPerm {
                    readable: port % 2 == 1,
                    writable: (port / 2) % 2 == 1,
                    executable: port / 4 == 1,
                },
            }
        },
{
    if start % PAGE_SIZE != 0 {
        return MapStep::Fail;
    }
    proof {
        assert((port & !0x7usize) != 0 <==> port >= 8) by (bit_vector);
    }
    if port & !0x7 != 0 || port == 0 {
        return MapStep::Fail;
    }
    if len == 0 {
        return MapStep::Done;
    }
    let end: usize = match start.checked_add(len) {
        Some(e) => e,
        None => {
            return MapStep::Fail;
        },
    };
    proof {
        assert(port < 8 ==> ((port & 1usize != 0) <==> port % 2 == 1)) by (bit_vector);
        assert(port < 8 ==> ((port & 2usize != 0) <==> (port / 2) % 2 == 1)) by (bit_vector);
        assert(port < 8 ==> ((port & 4usize != 0) <==> port / 4 == 1)) by (bit_vector);
    }
    let perm = MapPerm { readable: port & 1 != 0, writable: port & 2 != 0, executable: port & 4 != 0 };
    MapStep::MapRange { start, end, perm }
}

/// Checks an unmap request: `start` must be page aligned and `start + len`
/// must not overflow; an empty length unmaps nothing.
pub fn sys_munmap(start: usize, len: usize) -> (step: MapStep)
    ensures
        step == if start % PAGE_SIZE != 0 {
            MapStep::Fail
        } else if len == 0 {
            MapStep::Done
        } else if start + len > usize::MAX {
            MapStep::Fail
        } else {
            MapStep::UnmapRange { start, end: (start + len) as usize }
        },
{
    if start % PAGE_SIZE != 0 {
        return MapStep::Fail;
    }
    if len == 0 {
        return MapStep::Done;
    }
    let end: usize = match start.checked_add(len) {
        Some(e) => e,
        None => {
            return MapStep::Fail;
        },
    };
    MapStep::UnmapRange { start, end }
}

/// The result of a heap-size change: the old break when the change was
/// made, -1 when it was refused.
pub fn sys_sbrk(old_brk: Option<usize>) -> (ret: isize)
    ensures
        ret == match old_brk {
            Some(b) => b as isize,
            None => -1isize,
        },
{
    match old_brk {
        Some(b) => b as isize,
        None => -1,
    }
}

} // verus!
