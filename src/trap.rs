//! The saved user state of a trap and what the kernel does about a trap.
use vstd::prelude::*;

use crate::syscall::{SyscallAction, syscall, syscall_spec};

verus! {

/// The `SPP` bit of `sstatus`: set when the trap came from supervisor mode.
pub const SSTATUS_SPP: u64 = 0x100;

/// The 34 words saved on a trap, in the order the trap vector stores them:
/// `x0..x31`, then `sstatus`, then `sepc`.
#[derive(Clone, Copy, Debug)]
pub struct TrapContext {
    pub x: [u64; 32],
    pub sstatus: u64,
    pub sepc: u64,
}

impl TrapContext {
    /// Sets the user stack pointer, `x2`.
    pub fn set_sp(&mut self, sp: u64)
        ensures
            final(self).x@ == old(self).x@.update(2, sp),
            final(self).sstatus == old(self).sstatus,
            final(self).sepc == old(self).sepc,
    {
        self.x[2] = sp;
    }

    /// The context an application starts from: all registers zero but the
    /// stack pointer, `sstatus` as read with `SPP` cleared so that `sret`
    /// enters user mode, and `sepc` at the entry point.
    pub fn app_init_context(entry: u64, sp: u64, sstatus: u64) -> (r: TrapContext)
        ensures
            r.x@.len() == 32,
            r.x@[2] == sp,
            forall|i: int| 0 <= i < 32 && i != 2 ==> #[trigger] r.x@[i] == 0,
            r.sstatus == sstatus & !SSTATUS_SPP,
            r.sepc == entry,
    {
        let mut cx = TrapContext { x: [0; 32], sstatus: sstatus & !SSTATUS_SPP, sepc: entry };
        cx.set_sp(sp);
        cx
    }
}

/// The cause of a trap, as `scause` reports it.
#[derive(Clone, Copy, Debug, PartialEq, Eq, Structural)]
pub enum TrapCause {
    UserEnvCall,
    StoreFault,
    StoreGuestPageFault,
    IllegalInstruction,
    SupervisorTimer,
    Other,
}

/// Why a task is killed.
#[derive(Clone, Copy, Debug, PartialEq, Eq, Structural)]
pub enum Fault {
    PageFault,
    IllegalInstruction,
}

/// What the kernel must do after the handler has updated the trap context.
#[derive(Clone, Copy, Debug, PartialEq, Eq, Structural)]
pub enum TrapAction {
    /// A system call, whose result is already in `a0` where it has one.
    Syscall(SyscallAction),
    /// Kill the current task and run the next one.
    Kill(Fault),
    /// Arm the next tick, suspend the current task and run the next one.
    Timer,
    /// A trap the kernel does not handle: fatal.
    Unsupported,
}

/// Handles a trap from user mode, `mtime` being the time counter. On a
/// system call, `sepc` moves past the `ecall` and the call's result goes to
/// `a0`; the rest is left to the caller as the returned action.
pub fn trap_handler(cx: &mut TrapContext, cause: TrapCause, mtime: u64) -> (r: TrapAction)
    ensures
        cause == TrapCause::UserEnvCall ==> final(cx).sepc == (old(cx).sepc + 4) % 0x1_0000_0000_0000_0000,
        cause != TrapCause::UserEnvCall ==> *final(cx) == *old(cx),
        cause == TrapCause::UserEnvCall ==> {
            let a = syscall_spec(old(cx).x@[17], old(cx).x@[10], old(cx).x@[11], old(cx).x@[12], mtime);
            &&& r == TrapAction::Syscall(a)
            &&& final(cx).sstatus == old(cx).sstatus
            &&& final(cx).x@ == match a.return_value() {
                Some(v) => old(cx).x@.update(10, v),
                None => old(cx).x@,
            }
        },
        cause == TrapCause::StoreFault || cause == TrapCause::StoreGuestPageFault ==> r == TrapAction::Kill(Fault::PageFault),
        cause == TrapCause::IllegalInstruction ==> r == TrapAction::Kill(Fault::IllegalInstruction),
        cause == TrapCause::SupervisorTimer ==> r == TrapAction::Timer,
        cause == TrapCause::Other ==> r == TrapAction::Unsupported,
{
    match cause {
        TrapCause::UserEnvCall => {
            cx.sepc = cx.sepc.wrapping_add(4);
            let action = syscall(cx.x[17], [cx.x[10], cx.x[11], cx.x[12]], mtime);
            match action.return_value_exec() {
                Some(v) => cx.x[10] = v,
                None => {},
            }
            TrapAction::Syscall(action)
        },
        TrapCause::StoreFault | TrapCause::StoreGuestPageFault => TrapAction::Kill(Fault::PageFault),
        TrapCause::IllegalInstruction => TrapAction::Kill(Fault::IllegalInstruction),
        TrapCause::SupervisorTimer => TrapAction::Timer,
        TrapCause::Other => TrapAction::Unsupported,
    }
}

} // verus!
