//! Where the applications go, and the trap contexts they start from.
//!
//! Application `i` is copied to its own slot at
//! `APP_BASE_ADDRESS + i * APP_SIZE_LIMIT`; it starts from a trap context
//! pushed on top of its kernel stack.
use vstd::prelude::*;

use crate::config::{APP_BASE_ADDRESS, APP_SIZE_LIMIT, KERNEL_STACK_SIZE, MAX_APP_NUM, USER_STACK_SIZE};
use crate::trap::{TrapContext, SSTATUS_SPP};

verus! {

/// Size of a trap context in memory: 34 words.
pub const TRAP_CONTEXT_SIZE: u64 = 272;

/// Base address of application `app_id`'s slot.
pub fn get_base_i(app_id: usize) -> (r: u64)
    requires
        app_id < MAX_APP_NUM,
    ensures
        r == APP_BASE_ADDRESS + app_id * APP_SIZE_LIMIT,
{
    APP_BASE_ADDRESS + (app_id as u64) * APP_SIZE_LIMIT
}

/// Top of a kernel stack whose lowest byte is at `base`.
pub fn kernel_stack_top(base: u64) -> (r: u64)
    requires
        base + KERNEL_STACK_SIZE <= u64::MAX,
    ensures
        r == base + KERNEL_STACK_SIZE,
{
    base + KERNEL_STACK_SIZE
}

/// Top of a user stack whose lowest byte is at `base`.
pub fn user_stack_top(base: u64) -> (r: u64)
    requires
        base + USER_STACK_SIZE <= u64::MAX,
    ensures
        r == base + USER_STACK_SIZE,
{
    base + USER_STACK_SIZE
}

/// The address a trap context pushed on a stack whose top is `sp` occupies.
pub fn push_context_addr(sp: u64) -> (r: u64)
    requires
        sp >= TRAP_CONTEXT_SIZE,
    ensures
        r == sp - TRAP_CONTEXT_SIZE,
{
    sp - TRAP_CONTEXT_SIZE
}

/// The trap context application `app_id` starts from, and the address it is
/// pushed at on top of the application's kernel stack: it enters user mode
/// at the slot's base with the user stack's top as its stack pointer.
pub fn init_app_cx(app_id: usize, kernel_sp: u64, user_sp: u64, sstatus: u64) -> (r: (u64, TrapContext))
    requires
        app_id < MAX_APP_NUM,
        kernel_sp >= TRAP_CONTEXT_SIZE,
    ensures
        r.0 == kernel_sp - TRAP_CONTEXT_SIZE,
        r.1.sepc == APP_BASE_ADDRESS + app_id * APP_SIZE_LIMIT,
        r.1.x@[2] == user_sp,
        forall|i: int| 0 <= i < 32 && i != 2 ==> #[trigger] r.1.x@[i] == 0,
        r.1.sstatus == sstatus & !SSTATUS_SPP,
{
    let cx = TrapContext::app_init_context(get_base_i(app_id), user_sp, sstatus);
    (push_context_addr(kernel_sp), cx)
}

/// One application image to copy: from `src`, `len` bytes, to `dst`.
#[derive(Clone, Copy, Debug, PartialEq, Eq, Structural)]
pub struct AppImage {
    pub src: u64,
    pub dst: u64,
    pub len: u64,
}

/// Why the application table cannot be loaded.
#[derive(Clone, Copy, Debug, PartialEq, Eq, Structural)]
pub enum LoadError {
    /// More applications than there are slots.
    TooManyApps,
    /// An image ends before it starts.
    BadTable,
    /// An image larger than its slot.
    TooLarge,
}

/// Whether the start table `app_start` (one entry per application and one
/// for the end of the last) can be loaded.
pub open spec fn table_ok(app_start: Seq<u64>) -> bool {
    &&& 1 <= app_start.len() <= MAX_APP_NUM + 1
    &&& forall|i: int|
        0 <= i < app_start.len() - 1 ==> app_start[i] <= #[trigger] app_start[i + 1]
            && app_start[i + 1] - app_start[i] <= APP_SIZE_LIMIT
}

/// The copies that load the applications whose images start at the
/// addresses of `app_start`: image `i` spans `[app_start[i], app_start[i+1])`
/// and goes to slot `i`.
pub fn load_plan(app_start: &[u64]) -> (r: Result<Vec<AppImage>, LoadError>)
    requires
        app_start@.len() >= 1,
    ensures
        app_start@.len() > MAX_APP_NUM + 1 ==> r == Err::<Vec<AppImage>, LoadError>(LoadError::TooManyApps),
        r is Ok <==> table_ok(app_start@),
        r matches Ok(plan) ==> plan@.len() == app_start@.len() - 1 && forall|i: int|
            0 <= i < plan@.len() ==> (#[trigger] plan@[i]).src == app_start@[i] && plan@[i].len
                == app_start@[i + 1] - app_start@[i] && plan@[i].dst == APP_BASE_ADDRESS + i
                * APP_SIZE_LIMIT,
{
    let num_app = app_start.len() - 1;
    if num_app > MAX_APP_NUM {
        return Err(LoadError::TooManyApps);
    }
    let mut plan: Vec<AppImage> = Vec::new();
    let mut i: usize = 0;
    while i < num_app
        invariant
            num_app == app_start@.len() - 1,
            num_app <= MAX_APP_NUM,
            i <= num_app,
            plan@.len() == i,
            forall|j: int|
                0 <= j < i ==> app_start@[j] <= #[trigger] app_start@[j + 1] && app_start@[j + 1]
                    - app_start@[j] <= APP_SIZE_LIMIT,
            forall|j: int|
                0 <= j < i ==> (#[trigger] plan@[j]).src == app_start@[j] && plan@[j].len
                    == app_start@[j + 1] - app_start@[j] && plan@[j].dst == APP_BASE_ADDRESS + j
                    * APP_SIZE_LIMIT,
        decreases num_app - i,
    {
        if app_start[i + 1] < app_start[i] {
            return Err(LoadError::BadTable);
        }
        let len = app_start[i + 1] - app_start[i];
        if len > APP_SIZE_LIMIT {
            return Err(LoadError::TooLarge);
        }
        plan.push(AppImage { src: app_start[i], dst: get_base_i(i), len });
        i = i + 1;
    }
    Ok(plan)
}

} // verus!
