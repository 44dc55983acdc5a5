use oskernel::syscall::{sys_exit, sys_get_time, sys_yield, syscall, SyscallAction};
use oskernel::task::context::TaskContext;
use oskernel::task::{TaskManager, TaskStatus, TaskSwitch};
use oskernel::trap::{trap_handler, Fault, TrapAction, TrapCause, TrapContext};

fn manager(n: usize) -> TaskManager {
    let cxs: Vec<TaskContext> = (0..n).map(|i| TaskContext::goto_restore(0x1000 * (i as u64 + 1), 0x8020_0000)).collect();
    TaskManager::new(cxs)
}

#[test]
fn contexts_start_at_restore() {
    let z = TaskContext::zero_init();
    assert_eq!((z.ra, z.sp, z.s), (0, 0, [0; 12]));
    let c = TaskContext::goto_restore(0x8030_0000, 0x8020_1000);
    assert_eq!((c.ra, c.sp, c.s), (0x8020_1000, 0x8030_0000, [0; 12]));
}

#[test]
fn find_next_is_round_robin() {
    let mut tm = manager(4);
    tm.run_first_task();
    assert_eq!(tm.find_next_task(), Some(1));
    tm.mark_current_suspended();
    assert_eq!(tm.run_next_task(), Some(TaskSwitch { from: 0, to: 1 }));
    tm.mark_current_exited();
    assert_eq!(tm.find_next_task(), Some(2));
    assert_eq!(tm.get_status(1), TaskStatus::Exited);
}

#[test]
fn find_next_on_all_exited_is_none() {
    let mut tm = manager(3);
    tm.run_first_task();
    for _ in 0..3 {
        let sw = tm.exit_current_and_run_next();
        if sw.is_none() {
            break;
        }
    }
    for i in 0..3 {
        assert_eq!(tm.get_status(i), TaskStatus::Exited);
    }
    assert_eq!(tm.find_next_task(), None);
}

#[test]
fn single_app_exit_leaves_nothing_to_run() {
    let mut tm = manager(1);
    tm.run_first_task();
    let mut cx = TrapContext::app_init_context(0x8040_0000, 0x8050_0000, 0);
    cx.x[17] = 93;
    cx.x[10] = 0;
    let action = trap_handler(&mut cx, TrapCause::UserEnvCall, 0);
    assert_eq!(action, TrapAction::Syscall(SyscallAction::Exit { code: 0 }));
    assert_eq!(sys_exit(&mut tm, 0), None);
}

#[test]
fn two_yielding_apps_alternate() {
    let mut tm = manager(2);
    let mut order = vec![tm.run_first_task()];
    let mut yields = [0u32; 2];
    loop {
        let cur = tm.get_current_task();
        if yields[cur] < 3 {
            yields[cur] += 1;
            let sw = sys_yield(&mut tm);
            order.push(sw.to);
        } else {
            match sys_exit(&mut tm, 0) {
                Some(sw) => order.push(sw.to),
                None => break,
            }
        }
    }
    assert_eq!(order, vec![0, 1, 0, 1, 0, 1, 0, 1]);
}

#[test]
fn illegal_instruction_kills_only_the_culprit() {
    let mut tm = manager(2);
    tm.run_first_task();
    let mut cx = TrapContext::app_init_context(0x8040_0000, 0x8050_0000, 0);
    let before = cx.sepc;
    let action = trap_handler(&mut cx, TrapCause::IllegalInstruction, 0);
    assert_eq!(action, TrapAction::Kill(Fault::IllegalInstruction));
    assert_eq!(cx.sepc, before);
    assert_eq!(tm.exit_current_and_run_next(), Some(TaskSwitch { from: 0, to: 1 }));
    assert_eq!(tm.get_status(0), TaskStatus::Exited);
    assert_eq!(tm.get_status(1), TaskStatus::Running);
    let mut cx2 = TrapContext::app_init_context(0x8040_0000, 0x8050_0000, 0);
    assert_eq!(trap_handler(&mut cx2, TrapCause::StoreFault, 0), TrapAction::Kill(Fault::PageFault));
}

#[test]
fn timer_preempts_spinning_task() {
    let mut tm = manager(2);
    tm.run_first_task();
    let mut cx = TrapContext::app_init_context(0x8040_0000, 0x8050_0000, 0);
    assert_eq!(trap_handler(&mut cx, TrapCause::SupervisorTimer, 0), TrapAction::Timer);
    assert_eq!(tm.suspend_current_and_run_next(), Some(TaskSwitch { from: 0, to: 1 }));
    assert_eq!(sys_exit(&mut tm, 0), Some(TaskSwitch { from: 1, to: 0 }));
    assert_eq!(tm.suspend_current_and_run_next(), Some(TaskSwitch { from: 0, to: 0 }));
    assert_eq!(tm.get_status(0), TaskStatus::Running);
}

#[test]
fn ecall_advances_sepc_and_sets_a0() {
    let mut cx = TrapContext::app_init_context(0x8040_0000, 0x8050_0000, 0x122);
    assert_eq!(cx.sstatus, 0x22);
    assert_eq!(cx.x[2], 0x8050_0000);
    cx.sepc = 0x8040_0010;
    cx.x[17] = 169;
    let action = trap_handler(&mut cx, TrapCause::UserEnvCall, 12_500_000 * 3);
    assert_eq!(cx.sepc, 0x8040_0014);
    assert_eq!(action, TrapAction::Syscall(SyscallAction::GetTime { ms: 3000 }));
    assert_eq!(cx.x[10], 3000);
    cx.x[17] = 64;
    cx.x[10] = 1;
    cx.x[11] = 0x1234;
    cx.x[12] = 5;
    let w = trap_handler(&mut cx, TrapCause::UserEnvCall, 0);
    assert_eq!(w, TrapAction::Syscall(SyscallAction::Write { buf: 0x1234, len: 5 }));
    assert_eq!(cx.x[10], 5);
    assert_eq!(cx.sepc, 0x8040_0018);
}

#[test]
fn write_to_other_fd_is_fatal() {
    assert_eq!(syscall(64, [2, 0x1000, 3], 0), SyscallAction::UnsupportedFd);
    assert_eq!(syscall(64, [1, 0x1000, 3], 0), SyscallAction::Write { buf: 0x1000, len: 3 });
    assert_eq!(syscall(400, [0, 0, 0], 0), SyscallAction::Unsupported { id: 400 });
    assert_eq!(syscall(124, [0, 0, 0], 0), SyscallAction::Yield);
    assert_eq!(syscall(93, [u64::MAX, 0, 0], 0), SyscallAction::Exit { code: -1 });
    let mut cx = TrapContext::app_init_context(0, 0, 0);
    assert_eq!(trap_handler(&mut cx, TrapCause::Other, 0), TrapAction::Unsupported);
}

#[test]
fn time_in_milliseconds() {
    assert_eq!(sys_get_time(12_500), 1);
    assert_eq!(sys_get_time(12_499), 0);
    assert_eq!(oskernel::timer::get_time_ms(125_000_000), 10_000);
    assert_eq!(oskernel::timer::set_next_trigger(1000), 1000 + 125_000);
    assert_eq!(oskernel::timer::set_next_trigger(u64::MAX), 124_999);
}
