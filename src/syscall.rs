//! System-call dispatch.
use vstd::prelude::*;

use crate::task::{TaskManager, TaskStatus, TaskSwitch};
use crate::config::CLOCK_FREQ;
use crate::timer::{get_time_ms, MSEC_PER_SEC};

verus! {

pub const SYSCALL_WRITE: u64 = 64;
pub const SYSCALL_EXIT: u64 = 93;
pub const SYSCALL_YIELD: u64 = 124;
pub const SYSCALL_GET_TIME: u64 = 169;
/// The only file descriptor `write` accepts.
pub const FD_STDOUT: u64 = 1;

/// What a system call asks of the kernel.
#[derive(Clone, Copy, Debug, PartialEq, Eq, Structural)]
pub enum SyscallAction {
    /// Print the `len` bytes at `buf` to the console; the call returns `len`.
    Write { buf: u64, len: u64 },
    /// Report the exit code, exit the current task and run the next one.
    Exit { code: i32 },
    /// Suspend the current task and run the next one; the call returns 0.
    Yield,
    /// The call returns the time in milliseconds.
    GetTime { ms: u64 },
    /// `write` to a descriptor other than standard output: fatal.
    UnsupportedFd,
    /// An unknown system call: fatal.
    Unsupported { id: u64 },
}

impl SyscallAction {
    /// The value the call leaves in `a0`, for calls that return.
    pub open spec fn return_value(self) -> Option<u64> {
        match self {
            SyscallAction::Write { len, .. } => Some(len),
            SyscallAction::Yield => Some(0),
            SyscallAction::GetTime { ms } => Some(ms),
            _ => None,
        }
    }

    /// The value the call leaves in `a0`, for calls that return.
    pub fn return_value_exec(&self) -> (r: Option<u64>)
        ensures
            r == self.return_value(),
    {
        match self {
            SyscallAction::Write { len, .. } => Some(*len),
            SyscallAction::Yield => Some(0),
            SyscallAction::GetTime { ms } => Some(*ms),
            _ => None,
        }
    }
}

/// `write(fd, buf, len)`: only standard output is accepted.
pub fn sys_write(fd: u64, buf: u64, len: u64) -> (r: SyscallAction)
    ensures
        fd == FD_STDOUT ==> r == (SyscallAction::Write { buf, len }),
        fd != FD_STDOUT ==> r == SyscallAction::UnsupportedFd,
{
    if fd == FD_STDOUT {
        SyscallAction::Write { buf, len }
    } else {
        SyscallAction::UnsupportedFd
    }
}

/// `exit(code)`: exits the current task and picks the first ready task
/// after it; `None`, when no other task is ready, means the system is done.
pub fn sys_exit(manager: &mut TaskManager, exit_code: i32) -> (r: Option<TaskSwitch>)
    requires
        old(manager).inv(),
    ensures
        final(manager).inv(),
        final(manager).num() == old(manager).num(),
        final(manager).status(old(manager).current()) == TaskStatus::Exited,
        r is None <==> forall|j: int|
            0 <= j < old(manager).num() && j != old(manager).current() ==> #[trigger] old(
                manager,
            ).status(j) != TaskStatus::Ready,
        r matches Some(sw) ==> sw.from == old(manager).current() && final(manager).current() == sw.to
            && final(manager).status(sw.to as int) == TaskStatus::Running && old(
            manager,
        ).first_after_current(sw.to as int) && old(manager).status(sw.to as int) == TaskStatus::Ready,
        r matches Some(sw) ==> forall|j: int|
            0 <= j < old(manager).num() && j != old(manager).current() && j != sw.to ==> #[trigger] final(manager).status(j) == old(manager).status(j),
{
    manager.exit_current_and_run_next()
}

/// `yield()`: suspends the current task and picks the next one, which may
/// be the same task.
pub fn sys_yield(manager: &mut TaskManager) -> (r: TaskSwitch)
    requires
        old(manager).inv(),
    ensures
        final(manager).inv(),
        final(manager).num() == old(manager).num(),
        r.from == old(manager).current(),
        final(manager).current() == r.to,
        final(manager).status(r.to as int) == TaskStatus::Running,
        old(manager).first_after_current(r.to as int),
        r.to != old(manager).current() ==> old(manager).status(r.to as int) == TaskStatus::Ready
            && final(manager).status(old(manager).current()) == TaskStatus::Ready,
        forall|j: int|
            0 <= j < old(manager).num() && j != old(manager).current() && j != r.to ==> #[trigger] final(manager).status(j) == old(manager).status(j),
{
    match manager.suspend_current_and_run_next() {
        Some(sw) => sw,
        None => TaskSwitch { from: 0, to: 0 },
    }
}

/// `get_time()`: the time in milliseconds.
pub fn sys_get_time(mtime: u64) -> (r: i64)
    ensures
        r == (mtime / (CLOCK_FREQ / MSEC_PER_SEC)) as i64,
{
    get_time_ms(mtime) as i64
}

/// The action of system call `id` with arguments `a0 a1 a2` at counter
/// value `mtime`.
pub open spec fn syscall_spec(id: u64, a0: u64, a1: u64, a2: u64, mtime: u64) -> SyscallAction {
    if id == SYSCALL_WRITE {
        if a0 == FD_STDOUT {
            SyscallAction::Write { buf: a1, len: a2 }
        } else {
            SyscallAction::UnsupportedFd
        }
    } else if id == SYSCALL_EXIT {
        SyscallAction::Exit { code: a0 as i32 }
    } else if id == SYSCALL_YIELD {
        SyscallAction::Yield
    } else if id == SYSCALL_GET_TIME {
        SyscallAction::GetTime { ms: mtime / (CLOCK_FREQ / MSEC_PER_SEC) }
    } else {
        SyscallAction::Unsupported { id }
    }
}

/// Decodes system call `syscall_id` with its three arguments.
pub fn syscall(syscall_id: u64, args: [u64; 3], mtime: u64) -> (r: SyscallAction)
    ensures
        r == syscall_spec(syscall_id, args@[0], args@[1], args@[2], mtime),
        syscall_id == SYSCALL_WRITE ==> r == (if args@[0] == FD_STDOUT {
            SyscallAction::Write { buf: args@[1], len: args@[2] }
        } else {
            SyscallAction::UnsupportedFd
        }),
        syscall_id == SYSCALL_EXIT ==> r == (SyscallAction::Exit { code: args@[0] as i32 }),
        syscall_id == SYSCALL_YIELD ==> r == SyscallAction::Yield,
        syscall_id == SYSCALL_GET_TIME ==> r == (SyscallAction::GetTime { ms: mtime / (CLOCK_FREQ / MSEC_PER_SEC) }),
        syscall_id != SYSCALL_WRITE && syscall_id != SYSCALL_EXIT && syscall_id != SYSCALL_YIELD
            && syscall_id != SYSCALL_GET_TIME ==> r == (SyscallAction::Unsupported { id: syscall_id }),
{
    if syscall_id == SYSCALL_WRITE {
        sys_write(args[0], args[1], args[2])
    } else if syscall_id == SYSCALL_EXIT {
        SyscallAction::Exit { code: args[0] as i32 }
    } else if syscall_id == SYSCALL_YIELD {
        SyscallAction::Yield
    } else if syscall_id == SYSCALL_GET_TIME {
        SyscallAction::GetTime { ms: get_time_ms(mtime) }
    } else {
        SyscallAction::Unsupported { id: syscall_id }
    }
}

} // verus!
