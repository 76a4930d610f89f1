//! Tasks: their table, their PIDs and where their images live.
use vstd::prelude::*;
use crate::mem::HH;
use crate::tasks::task::Task;

pub mod elf;
pub mod futex;
pub mod loader;
pub mod scheduler;
pub mod task;
pub mod tls;

verus! {

/// A process identifier: the index of a task in the task table.
pub type PID = usize;

/// Base address of the 2 GiB of the higher half given to task `pid`.
pub open spec fn spec_pid_to_base(pid: int) -> int {
    HH + pid * 0x8000_0000
}

/// The task whose 2 GiB of the higher half hold `addr`.
pub open spec fn spec_base_to_pid(addr: int) -> int {
    (addr - HH) / 0x8000_0000
}

/// Base address of the 2 GiB of the higher half given to task `pid`.
pub fn pid_to_base(pid: PID) -> (r: u64)
    requires
        pid < 0x1_0000,
    ensures
        r == spec_pid_to_base(pid as int),
{
    assert(((pid as u64) << 31u64) == (pid as u64) * 0x8000_0000u64) by (bit_vector)
        requires (pid as u64) < 0x1_0000u64;
    HH + ((pid as u64) << 31)
}

/// The task whose 2 GiB of the higher half hold `addr`.
pub fn base_to_pid(addr: u64) -> (r: PID)
    requires
        addr >= HH,
    ensures
        r == spec_base_to_pid(addr as int),
{
    assert(((addr - HH) as u64) >> 31u64 == ((addr - HH) as u64) / 0x8000_0000u64) by (bit_vector);
    ((addr - HH) >> 31) as PID
}

/// Every address of task `pid`'s 2 GiB, its base among them, gives `pid` back.
pub proof fn law_base_to_pid_inverts_pid_to_base(pid: int)
    requires
        0 <= pid < 0x1_0000,
    ensures
        spec_pid_to_base(pid) >= HH,
        spec_pid_to_base(pid) + 0x8000_0000 <= u64::MAX + 1,
        spec_base_to_pid(spec_pid_to_base(pid)) == pid,
        forall|off: int| 0 <= off < 0x8000_0000 ==> #[trigger] spec_base_to_pid(spec_pid_to_base(pid) + off) == pid,
{
    assert forall|off: int| 0 <= off < 0x8000_0000 implies #[trigger] spec_base_to_pid(spec_pid_to_base(pid) + off) == pid by {
        assert((pid * 0x8000_0000 + off) / 0x8000_0000 == pid) by (nonlinear_arith)
            requires 0 <= off < 0x8000_0000;
    }
    assert((pid * 0x8000_0000) / 0x8000_0000 == pid) by (nonlinear_arith);
}

/// The task table, with the free PIDs and the next PID never handed out.
pub struct Tasks {
    tasks: Vec<Task>,
    pids: Vec<PID>,
    monotonic: PID,
}

impl Tasks {
    pub closed spec fn wf(&self) -> bool {
        &&& self.monotonic >= 1
        &&& self.monotonic == 1 ==> self.tasks@.len() == 0
        &&& self.monotonic > 1 ==> self.tasks@.len() == self.monotonic
        &&& forall|i: int| 0 <= i < self.pids@.len() ==> 0 < #[trigger] self.pids@[i] < self.monotonic
    }

    /// The tasks, indexed by PID (index 0 is the null task).
    pub closed spec fn view(&self) -> Seq<Task> {
        self.tasks@
    }

    /// PIDs given back, to be handed out again (last first).
    pub closed spec fn free_pids(&self) -> Seq<PID> {
        self.pids@
    }

    /// The next PID never handed out.
    pub closed spec fn next_pid(&self) -> PID {
        self.monotonic
    }

    /// The next PID never handed out.
    pub fn fresh_pid(&self) -> (r: PID)
        ensures
            r == self.next_pid(),
    {
        self.monotonic
    }

    /// An empty table; the first PID handed out is 1.
    pub fn new() -> (r: Tasks)
        ensures
            r.wf(),
            r@.len() == 0,
            r.free_pids().len() == 0,
            r.next_pid() == 1,
    {
        Tasks { tasks: Vec::new(), pids: Vec::new(), monotonic: 1 }
    }

    /// Hands out a PID: the last one given back if any, else the next new one, for which
    /// a fresh task is added (together with the null task 0 the first time).
    pub fn alloc_pid(&mut self) -> (r: PID)
        requires
            old(self).wf(),
            old(self).next_pid() < usize::MAX,
        ensures
            final(self).wf(),
            old(self).free_pids().len() > 0 ==> {
                &&& r == old(self).free_pids().last()
                &&& final(self).free_pids() == old(self).free_pids().drop_last()
                &&& final(self)@ == old(self)@
                &&& final(self).next_pid() == old(self).next_pid()
            },
            old(self).free_pids().len() == 0 ==> {
                &&& r == old(self).next_pid()
                &&& final(self).next_pid() == old(self).next_pid() + 1
                &&& final(self).free_pids() == old(self).free_pids()
                &&& final(self)@.len() == r + 1
                &&& Task::is_fresh(final(self)@[r as int])
                &&& r == 1 ==> Task::is_fresh(final(self)@[0])
                &&& forall|i: int| 0 <= i < old(self)@.len() ==> final(self)@[i] == old(self)@[i]
            },
            0 < r < final(self)@.len(),
            r <= old(self).next_pid(),
            old(self)@.len() <= final(self)@.len(),
            forall|i: int| 0 <= i < old(self)@.len() ==> final(self)@[i] == old(self)@[i],
            forall|i: int| old(self)@.len() <= i < final(self)@.len() ==> Task::is_fresh(#[trigger] final(self)@[i]),
    {
        if self.pids.len() == 0 {
            let ret = self.monotonic;
            if ret == 1 {
                self.tasks.push(Task::new());
            }
            self.monotonic = self.monotonic + 1;
            self.tasks.push(Task::new());
            return ret;
        }
        let r = self.pids.pop();
        match r {
            Some(p) => p,
            None => 0,
        }
    }

    /// The task with PID `pid`.
    pub fn get_task(&self, pid: PID) -> (r: &Task)
        requires
            pid < self@.len(),
        ensures
            *r == self@[pid as int],
    {
        &self.tasks[pid]
    }

    /// The number of entries of the table.
    pub fn len(&self) -> (r: usize)
        ensures
            r == self@.len(),
    {
        self.tasks.len()
    }

    /// Puts `t` in the place of task `pid` and gives back the task that was there.
    pub fn replace_task(&mut self, pid: PID, t: Task) -> (r: Task)
        requires
            old(self).wf(),
            pid < old(self)@.len(),
        ensures
            final(self).wf(),
            final(self).free_pids() == old(self).free_pids(),
            final(self).next_pid() == old(self).next_pid(),
            r == old(self)@[pid as int],
            final(self)@ == old(self)@.update(pid as int, t),
    {
        let r = self.tasks.remove(pid);
        self.tasks.insert(pid, t);
        proof {
            assert(self.tasks@ =~= old(self)@.update(pid as int, t));
        }
        r
    }

    /// Sets where task `pid` starts: its instruction and stack pointers.
    pub fn set_entry(&mut self, pid: PID, rip: u64, rsp: u64)
        requires
            old(self).wf(),
            pid < old(self)@.len(),
        ensures
            final(self).wf(),
            final(self).free_pids() == old(self).free_pids(),
            final(self).next_pid() == old(self).next_pid(),
            final(self)@ == old(self)@.update(pid as int, Task { rip, rsp, ..old(self)@[pid as int] }),
    {
        let mut t = self.tasks.remove(pid);
        t.rip = rip;
        t.rsp = rsp;
        self.tasks.insert(pid, t);
        proof {
            assert(self.tasks@ =~= old(self)@.update(pid as int, Task { rip, rsp, ..old(self)@[pid as int] }));
        }
    }
}

} // verus!
