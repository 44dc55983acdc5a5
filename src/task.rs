//! Tasks and the round-robin scheduler.
//!
//! The scheduler decides; switching stacks is left to the caller, which
//! receives the pair of tasks to switch between and must release its hold on
//! the manager before it switches.
use vstd::prelude::*;

pub mod context;

use crate::config::MAX_APP_NUM;
use context::TaskContext;

verus! {

/// Where a task stands.
#[derive(Clone, Copy, Debug, PartialEq, Eq, Structural)]
pub enum TaskStatus {
    UnInit,
    Ready,
    Running,
    Exited,
}

/// A task: its status and its saved kernel context.
#[derive(Clone, Copy, Debug)]
pub struct TaskControlBlock {
    pub tasks_status: TaskStatus,
    pub task_cx: TaskContext,
}

/// A switch the caller must perform: save the running kernel context into
/// task `from`'s and resume task `to`'s.
#[derive(Clone, Copy, Debug, PartialEq, Eq, Structural)]
pub struct TaskSwitch {
    pub from: usize,
    pub to: usize,
}

/// The tasks of the applications and the one that runs.
pub struct TaskManager {
    num_app: usize,
    tasks: Vec<TaskControlBlock>,
    current_task: usize,
}

/// The index that comes `k` places after `current` in circular order over `n`.
pub open spec fn circular(current: int, k: int, n: int) -> int {
    (current + k) % n
}

impl TaskManager {
    pub closed spec fn num(&self) -> int {
        self.num_app as int
    }

    pub closed spec fn current(&self) -> int {
        self.current_task as int
    }

    /// Status of task `i`.
    pub closed spec fn status(&self, i: int) -> TaskStatus {
        self.tasks@[i].tasks_status
    }

    /// Saved context of task `i`.
    pub closed spec fn context(&self, i: int) -> TaskContext {
        self.tasks@[i].task_cx
    }

    /// The manager's invariant: one block per application, the current
    /// index among them, and no task but the current one running.
    pub open spec fn wf(&self) -> bool {
        &&& 0 < self.num() <= MAX_APP_NUM
        &&& 0 <= self.current() < self.num()
        &&& forall|i: int| 0 <= i < self.num() && #[trigger] self.status(i) == TaskStatus::Running ==> i == self.current()
    }

    pub closed spec fn blocks_match(&self) -> bool {
        self.tasks@.len() == self.num_app
    }

    /// The invariant together with the shape of the storage.
    pub open spec fn inv(&self) -> bool {
        self.wf() && self.blocks_match()
    }

    /// Whether task `id` is the first ready one after the current task, in
    /// circular order.
    pub open spec fn is_next_ready(&self, id: int) -> bool {
        &&& 0 <= id < self.num()
        &&& self.status(id) == TaskStatus::Ready
        &&& exists|k: int|
            1 <= k <= self.num() && circular(self.current(), k, self.num()) == id && forall|j: int|
                1 <= j < k ==> #[trigger] self.status(circular(self.current(), j, self.num()))
                    != TaskStatus::Ready
    }

    /// Whether task `id` comes after the current task in circular order with
    /// no ready task between them; the current task itself comes last.
    pub open spec fn first_after_current(&self, id: int) -> bool {
        exists|k: int|
            1 <= k <= self.num() && circular(self.current(), k, self.num()) == id && forall|j: int|
                1 <= j < k ==> #[trigger] self.status(circular(self.current(), j, self.num()))
                    != TaskStatus::Ready
    }

    /// Whether some task is ready.
    pub open spec fn any_ready(&self) -> bool {
        exists|i: int| 0 <= i < self.num() && #[trigger] self.status(i) == TaskStatus::Ready
    }

    /// A manager of the given tasks, all ready, the first one current.
    pub fn new(contexts: Vec<TaskContext>) -> (r: TaskManager)
        requires
            0 < contexts@.len() <= MAX_APP_NUM,
        ensures
            r.inv(),
            r.num() == contexts@.len(),
            r.current() == 0,
            forall|i: int| 0 <= i < r.num() ==> #[trigger] r.status(i) == TaskStatus::Ready && r.context(i) == contexts@[i],
    {
        let mut tasks: Vec<TaskControlBlock> = Vec::new();
        let mut i: usize = 0;
        while i < contexts.len()
            invariant
                i <= contexts@.len(),
                tasks@.len() == i,
                forall|j: int| 0 <= j < i ==> (#[trigger] tasks@[j]).tasks_status == TaskStatus::Ready && tasks@[j].task_cx == contexts@[j],
            decreases contexts@.len() - i,
        {
            tasks.push(TaskControlBlock { tasks_status: TaskStatus::Ready, task_cx: contexts[i] });
            i = i + 1;
        }
        TaskManager { num_app: contexts.len(), tasks, current_task: 0 }
    }

    /// Number of applications.
    pub fn get_num_app(&self) -> (r: usize)
        ensures
            r == self.num(),
    {
        self.num_app
    }

    /// Index of the current task.
    pub fn get_current_task(&self) -> (r: usize)
        ensures
            r == self.current(),
    {
        self.current_task
    }

    /// Status of task `i`.
    pub fn get_status(&self, i: usize) -> (r: TaskStatus)
        requires
            self.inv(),
            i < self.num(),
        ensures
            r == self.status(i as int),
    {
        self.tasks[i].tasks_status
    }

    /// The saved context of task `i`.
    pub fn get_task_cx(&self, i: usize) -> (r: TaskContext)
        requires
            self.inv(),
            i < self.num(),
        ensures
            r == self.context(i as int),
    {
        self.tasks[i].task_cx
    }

    /// Marks the current task ready again.
    pub fn mark_current_suspended(&mut self)
        requires
            old(self).inv(),
        ensures
            final(self).inv(),
            final(self).num() == old(self).num(),
            final(self).current() == old(self).current(),
            final(self).status(old(self).current()) == TaskStatus::Ready,
            forall|j: int| 0 <= j < old(self).num() && j != old(self).current() ==> #[trigger] final(self).status(j) == old(self).status(j),
            forall|j: int| 0 <= j < old(self).num() ==> #[trigger] final(self).context(j) == old(self).context(j),
    {
        let current = self.current_task;
        let cx = self.tasks[current].task_cx;
        self.tasks.set(current, TaskControlBlock { tasks_status: TaskStatus::Ready, task_cx: cx });
        proof {
            assert forall|j: int| 0 <= j < self.num() && #[trigger] self.status(j) == TaskStatus::Running implies j == self.current() by {
                if j != current {
                    assert(self.status(j) == old(self).status(j));
                }
            }
        }
    }

    /// Marks the current task exited.
    pub fn mark_current_exited(&mut self)
        requires
            old(self).inv(),
        ensures
            final(self).inv(),
            final(self).num() == old(self).num(),
            final(self).current() == old(self).current(),
            final(self).status(old(self).current()) == TaskStatus::Exited,
            forall|j: int| 0 <= j < old(self).num() && j != old(self).current() ==> #[trigger] final(self).status(j) == old(self).status(j),
            forall|j: int| 0 <= j < old(self).num() ==> #[trigger] final(self).context(j) == old(self).context(j),
    {
        let current = self.current_task;
        let cx = self.tasks[current].task_cx;
        self.tasks.set(current, TaskControlBlock { tasks_status: TaskStatus::Exited, task_cx: cx });
        proof {
            assert forall|j: int| 0 <= j < self.num() && #[trigger] self.status(j) == TaskStatus::Running implies j == self.current() by {
                if j != current {
                    assert(self.status(j) == old(self).status(j));
                }
            }
        }
    }

    /// The first ready task after the current one, in circular order;
    /// `None` when no task is ready.
    pub fn find_next_task(&self) -> (r: Option<usize>)
        requires
            self.inv(),
        ensures
            r matches Some(id) ==> self.is_next_ready(id as int),
            r is None <==> !self.any_ready(),
    {
        let n = self.num_app;
        let current = self.current_task;
        let mut k: usize = 1;
        while k <= n
            invariant
                self.inv(),
                n == self.num(),
                current == self.current(),
                1 <= k <= n + 1,
                forall|j: int| 1 <= j < k ==> #[trigger] self.status(circular(current as int, j, n as int)) != TaskStatus::Ready,
            decreases n + 1 - k,
        {
            let id = (current + k) % n;
            if self.tasks[id].tasks_status == TaskStatus::Ready {
                proof {
                    assert(circular(current as int, k as int, n as int) == id);
                    assert(self.any_ready()) by {
                        assert(0 <= id < self.num() && self.status(id as int) == TaskStatus::Ready);
                    }
                }
                return Some(id);
            }
            k = k + 1;
        }
        proof {
            if self.any_ready() {
                let i = choose|i: int| 0 <= i < self.num() && #[trigger] self.status(i) == TaskStatus::Ready;
                let j = if i > current as int { i - current } else { i + n - current };
                assert(1 <= j <= n);
                assert(circular(current as int, j, n as int) == i) by {
                    if i > current as int {
                        assert(current + j == i);
                        assert(i % (n as int) == i) by (nonlinear_arith)
                            requires
                                0 <= i < n;
                    } else {
                        assert(current + j == i + n);
                        assert((i + n) % (n as int) == i) by (nonlinear_arith)
                            requires
                                0 <= i < n;
                    }
                }
            }
        }
        None
    }

    /// Runs the next ready task: marks it running and makes it current, and
    /// hands back the switch to perform. `None` when no task is ready, the
    /// manager unchanged.
    pub fn run_next_task(&mut self) -> (r: Option<TaskSwitch>)
        requires
            old(self).inv(),
            old(self).status(old(self).current()) != TaskStatus::Running,
        ensures
            final(self).inv(),
            final(self).num() == old(self).num(),
            forall|j: int| 0 <= j < old(self).num() ==> #[trigger] final(self).context(j) == old(self).context(j),
            r is None <==> !old(self).any_ready(),
            r is None ==> final(self).current() == old(self).current() && forall|j: int| 0 <= j < old(self).num() ==> #[trigger] final(self).status(j) == old(self).status(j),
            r matches Some(sw) ==> {
                &&& old(self).is_next_ready(sw.to as int)
                &&& sw.from == old(self).current()
                &&& final(self).current() == sw.to
                &&& final(self).status(sw.to as int) == TaskStatus::Running
                &&& forall|j: int| 0 <= j < old(self).num() && j != sw.to ==> #[trigger] final(self).status(j) == old(self).status(j)
            },
    {
        match self.find_next_task() {
            Some(next) => {
                let current = self.current_task;
                let cx = self.tasks[next].task_cx;
                self.tasks.set(next, TaskControlBlock { tasks_status: TaskStatus::Running, task_cx: cx });
                self.current_task = next;
                proof {
                    assert forall|j: int| 0 <= j < self.num() && #[trigger] self.status(j) == TaskStatus::Running implies j == self.current() by {
                        if j != next {
                            assert(self.status(j) == old(self).status(j));
                        }
                    }
                }
                Some(TaskSwitch { from: current, to: next })
            },
            None => None,
        }
    }

    /// Starts the first task: marks it running and makes it current. The
    /// caller switches into it from a context it throws away.
    pub fn run_first_task(&mut self) -> (r: usize)
        requires
            old(self).inv(),
            forall|j: int| 0 <= j < old(self).num() ==> #[trigger] old(self).status(j) != TaskStatus::Running,
        ensures
            final(self).inv(),
            r == 0,
            final(self).num() == old(self).num(),
            final(self).current() == 0,
            final(self).status(0) == TaskStatus::Running,
            forall|j: int| 0 < j < old(self).num() ==> #[trigger] final(self).status(j) == old(self).status(j),
            forall|j: int| 0 <= j < old(self).num() ==> #[trigger] final(self).context(j) == old(self).context(j),
    {
        let cx = self.tasks[0].task_cx;
        self.tasks.set(0, TaskControlBlock { tasks_status: TaskStatus::Running, task_cx: cx });
        self.current_task = 0;
        proof {
            assert forall|j: int| 0 <= j < self.num() && #[trigger] self.status(j) == TaskStatus::Running implies j == self.current() by {
                if j != 0 {
                    assert(self.status(j) == old(self).status(j));
                }
            }
        }
        0
    }

    /// Suspends the current task and picks the next ready one. The switch
    /// it returns does not come back to the caller until the suspended task
    /// is scheduled again; `None` when no task is ready.
    pub fn suspend_current_and_run_next(&mut self) -> (r: Option<TaskSwitch>)
        requires
            old(self).inv(),
        ensures
            final(self).inv(),
            final(self).num() == old(self).num(),
            r is Some,
            r matches Some(sw) ==> sw.from == old(self).current() && final(self).current() == sw.to
                && final(self).status(sw.to as int) == TaskStatus::Running,
            r matches Some(sw) ==> old(self).first_after_current(sw.to as int) && (sw.to
                == old(self).current() || old(self).status(sw.to as int) == TaskStatus::Ready),
            r matches Some(sw) ==> (sw.to != old(self).current() ==> final(self).status(
                old(self).current(),
            ) == TaskStatus::Ready),
            r matches Some(sw) ==> forall|j: int|
                0 <= j < old(self).num() && j != old(self).current() && j != sw.to ==> #[trigger] final(self).status(j) == old(self).status(j),
    {
        self.mark_current_suspended();
        let ghost mid = *self;
        let r = self.run_next_task();
        proof {
            if r is None {
                assert(self.status(self.current()) == TaskStatus::Ready);
            } else {
                let to = r.unwrap().to as int;
                Self::lemma_first_after_current(old(self), &mid, to);
            }
        }
        r
    }

    /// A choice made after marking the current task carries over to the
    /// statuses before the mark: only the current task's status changed,
    /// and it comes last in circular order.
    proof fn lemma_first_after_current(before: &TaskManager, mid: &TaskManager, to: int)
        requires
            before.wf(),
            mid.num() == before.num(),
            mid.current() == before.current(),
            forall|j: int| 0 <= j < before.num() && j != before.current() ==> #[trigger] mid.status(j) == before.status(j),
            mid.is_next_ready(to),
        ensures
            before.first_after_current(to),
            to == before.current() || before.status(to) == TaskStatus::Ready,
    {
        let n = before.num();
        let c = before.current();
        let k = choose|k: int|
            1 <= k <= mid.num() && circular(mid.current(), k, mid.num()) == to && forall|j: int|
                1 <= j < k ==> #[trigger] mid.status(circular(mid.current(), j, mid.num()))
                    != TaskStatus::Ready;
        assert forall|j: int| 1 <= j < k implies #[trigger] before.status(circular(c, j, n)) != TaskStatus::Ready by {
            assert(mid.status(circular(c, j, n)) != TaskStatus::Ready);
            let x = circular(c, j, n);
            assert(0 <= x < n) by (nonlinear_arith)
                requires
                    x == (c + j) % n,
                    0 < n,
                    0 <= c,
                    1 <= j;
            assert(x != c) by (nonlinear_arith)
                requires
                    x == (c + j) % n,
                    0 <= c < n,
                    1 <= j < n;
        }
        if to != c {
            assert(0 <= to < n);
            assert(mid.status(to) == before.status(to));
        }
    }

    /// Exits the current task and picks the next ready one; the exited task
    /// is never resumed. `None` when no task is left ready.
    pub fn exit_current_and_run_next(&mut self) -> (r: Option<TaskSwitch>)
        requires
            old(self).inv(),
        ensures
            final(self).inv(),
            final(self).num() == old(self).num(),
            final(self).status(old(self).current()) == TaskStatus::Exited,
            r is None <==> forall|j: int| 0 <= j < old(self).num() && j != old(self).current() ==> #[trigger] old(self).status(j) != TaskStatus::Ready,
            r matches Some(sw) ==> old(self).first_after_current(sw.to as int) && old(self).status(
                sw.to as int,
            ) == TaskStatus::Ready,
            r matches Some(sw) ==> forall|j: int|
                0 <= j < old(self).num() && j != old(self).current() && j != sw.to ==> #[trigger] final(self).status(j) == old(self).status(j),
            r is None ==> final(self).current() == old(self).current() && forall|j: int|
                0 <= j < old(self).num() && j != old(self).current() ==> #[trigger] final(self).status(j)
                    == old(self).status(j),
            r matches Some(sw) ==> sw.from == old(self).current() && final(self).current() == sw.to
                && final(self).status(sw.to as int) == TaskStatus::Running && sw.to != old(self).current(),
    {
        self.mark_current_exited();
        let ghost mid = *self;
        let r = self.run_next_task();
        proof {
            if r is None {
                assert forall|j: int| 0 <= j < old(self).num() && j != old(self).current() implies #[trigger] old(self).status(j) != TaskStatus::Ready by {
                    assert(mid.status(j) == old(self).status(j));
                }
            } else {
                Self::lemma_first_after_current(old(self), &mid, r.unwrap().to as int);
                if forall|j: int| 0 <= j < old(self).num() && j != old(self).current() ==> #[trigger] old(self).status(j) != TaskStatus::Ready {
                    let i = choose|i: int| 0 <= i < mid.num() && #[trigger] mid.status(i) == TaskStatus::Ready;
                    if i != old(self).current() {
                        assert(old(self).status(i) != TaskStatus::Ready);
                    }
                }
            }
        }
        r
    }
}

/// No two tasks run at once, and a running task is the current one.
pub proof fn lemma_at_most_one_running(tm: &TaskManager, i: int, j: int)
    requires
        tm.wf(),
        0 <= i < tm.num(),
        0 <= j < tm.num(),
        tm.status(i) == TaskStatus::Running,
        tm.status(j) == TaskStatus::Running,
    ensures
        i == j,
        i == tm.current(),
{
}

} // verus!
