//! Verified pieces of a small teaching kernel: the banker's safety check and
//! the deadlock checks built on it, the decisions and state changes of the
//! file, process and synchronization system calls, the stride scheduler, and
//! the directory logic of the file system.
use vstd::prelude::*;

pub mod banker;
pub mod deadlock;
pub mod process;
pub mod sys_fs;
pub mod sys_process;
pub mod sys_sync;
pub mod scheduler;
pub mod vfs;

verus! {

} // verus!
