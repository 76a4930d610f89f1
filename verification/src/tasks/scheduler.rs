//! The round-robin scheduler.
use vstd::prelude::*;
use std::collections::VecDeque;
use crate::collections::{PidSet, pid_set_view};
use crate::tasks::PID;

verus! {

/// The round-robin queue, the set of the PIDs in it, and what each core runs.
pub struct SchedulerState {
    rr: VecDeque<PID>,
    present: PidSet,
    running: Vec<PID>,
}

impl SchedulerState {
    /// The set mirrors the queue, and no PID is queued twice.
    pub closed spec fn wf(&self) -> bool {
        &&& pid_set_view(self.present) == self.rr@.to_set()
        &&& self.rr@.no_duplicates()
    }

    /// The queue, front first.
    pub closed spec fn queue(&self) -> Seq<PID> {
        self.rr@
    }

    /// The PID each core runs (0: none), indexed by core.
    pub closed spec fn running(&self) -> Seq<PID> {
        self.running@
    }

    /// An empty queue, and `ncores` cores that run nothing.
    pub fn new(ncores: usize) -> (r: SchedulerState)
        ensures
            r.wf(),
            r.queue().len() == 0,
            r.running() == Seq::new(ncores as nat, |i: int| 0usize),
    {
        let mut running: Vec<PID> = Vec::new();
        let mut i: usize = 0;
        while i < ncores
            invariant
                i <= ncores,
                running@ == Seq::new(i as nat, |j: int| 0usize),
            decreases ncores - i,
        {
            running.push(0);
            i = i + 1;
            proof {
                assert(running@ =~= Seq::new(i as nat, |j: int| 0usize));
            }
        }
        let r = SchedulerState { rr: VecDeque::new(), present: PidSet::new(), running };
        proof {
            assert(r.rr@.to_set() =~= Set::<usize>::empty());
        }
        r
    }

    /// Queues `pid` at the back, unless it is queued already.
    pub fn add(&mut self, pid: PID)
        requires
            old(self).wf(),
        ensures
            final(self).wf(),
            final(self).running() == old(self).running(),
            old(self).queue().contains(pid) ==> final(self).queue() == old(self).queue(),
            !old(self).queue().contains(pid) ==> final(self).queue() == old(self).queue().push(pid),
    {
        if self.present.contains(pid) {
            return;
        }
        self.rr.push_back(pid);
        self.present.insert(pid);
        proof {
            assert(pid_set_view(self.present) =~= self.rr@.to_set()) by {
                assert forall|x: usize| #[trigger] self.rr@.contains(x) <==> (old(self).rr@.contains(x) || x == pid) by {
                    if old(self).rr@.contains(x) {
                        let i = choose|i: int| 0 <= i < old(self).rr@.len() && old(self).rr@[i] == x;
                        assert(self.rr@[i] == x);
                    }
                    if x == pid {
                        assert(self.rr@[old(self).rr@.len() as int] == pid);
                    }
                }
            }
        }
    }

    /// Picks what core `core` runs next: the PID at the front of the queue, taken out of
    /// it; with an empty queue the core runs nothing (PID 0) and `None` comes back.
    pub fn schedule(&mut self, core: usize) -> (r: Option<PID>)
        requires
            old(self).wf(),
            core < old(self).running().len(),
        ensures
            final(self).wf(),
            old(self).queue().len() > 0 ==> {
                &&& r == Some(old(self).queue()[0])
                &&& final(self).queue() == old(self).queue().drop_first()
                &&& final(self).running() == old(self).running().update(core as int, old(self).queue()[0])
            },
            old(self).queue().len() == 0 ==> {
                &&& r is None
                &&& final(self).queue() == old(self).queue()
                &&& final(self).running() == old(self).running().update(core as int, 0)
            },
    {
        match self.rr.pop_front() {
            Some(pid) => {
                self.running.set(core, pid);
                self.present.remove(pid);
                proof {
                    let old_rr = old(self).rr@;
                    assert(self.rr@ =~= old_rr.drop_first());
                    assert forall|x: usize| #[trigger] self.rr@.contains(x) <==> (old_rr.contains(x) && x != pid) by {
                        if self.rr@.contains(x) {
                            let i = choose|i: int| 0 <= i < self.rr@.len() && self.rr@[i] == x;
                            assert(old_rr[i + 1] == x);
                        }
                        if old_rr.contains(x) && x != pid {
                            let i = choose|i: int| 0 <= i < old_rr.len() && old_rr[i] == x;
                            assert(i != 0);
                            assert(self.rr@[i - 1] == x);
                        }
                    }
                    assert(pid_set_view(self.present) =~= self.rr@.to_set());
                }
                Some(pid)
            },
            None => {
                self.running.set(core, 0);
                None
            },
        }
    }

    /// The PID that core `core` runs (0: none).
    pub fn core_running(&self, core: usize) -> (r: PID)
        requires
            core < self.running().len(),
        ensures
            r == self.running()[core as int],
    {
        self.running[core]
    }
}


/// Round robin: a PID added to a queue that does not hold it is picked after exactly the
/// PIDs that were ahead of it, in their order, and the queue still holds no PID twice.
pub proof fn law_round_robin(q: Seq<PID>, pid: PID, k: int)
    requires
        q.no_duplicates(),
        !q.contains(pid),
        0 <= k <= q.len(),
    ensures
        q.push(pid).skip(k)[0] == (if k < q.len() { q[k] } else { pid }),
        q.push(pid).no_duplicates(),
{
    assert forall|i: int, j: int| 0 <= i < j < q.push(pid).len() implies q.push(pid)[i] != q.push(pid)[j] by {
        if j == q.len() {
            assert(q.contains(q[i]));
        }
    }
}

} // verus!
