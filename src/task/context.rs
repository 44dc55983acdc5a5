//! The callee-saved registers exchanged by a kernel context switch.
use vstd::prelude::*;

verus! {

/// `ra`, `sp` and `s0..s11` of a task suspended in the kernel.
#[derive(Clone, Copy, Debug)]
pub struct TaskContext {
    pub ra: u64,
    pub sp: u64,
    pub s: [u64; 12],
}

impl TaskContext {
    /// A context of zeros.
    pub fn zero_init() -> (r: TaskContext)
        ensures
            r.ra == 0,
            r.sp == 0,
            forall|i: int| 0 <= i < 12 ==> #[trigger] r.s@[i] == 0,
    {
        TaskContext { ra: 0, sp: 0, s: [0; 12] }
    }

    /// A context that, once switched to, returns into `restore` (the trap
    /// return path) with `kstack_ptr` as its stack: the trap context pushed
    /// there is then restored into user mode.
    pub fn goto_restore(kstack_ptr: u64, restore: u64) -> (r: TaskContext)
        ensures
            r.ra == restore,
            r.sp == kstack_ptr,
            forall|i: int| 0 <= i < 12 ==> #[trigger] r.s@[i] == 0,
    {
        TaskContext { ra: restore, sp: kstack_ptr, s: [0; 12] }
    }
}

} // verus!
