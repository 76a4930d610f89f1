//! Futexes: a queue of parked tasks per user variable.
use vstd::prelude::*;
use std::collections::VecDeque;
use crate::collections::{UsizeMap, usize_map_view};
use crate::tasks::PID;
use crate::tasks::scheduler::SchedulerState;

verus! {

/// The futex of the variable at address `var`, with the tasks parked on it.
pub struct Futex {
    pub var: usize,
    pub parking: VecDeque<PID>,
}

impl Futex {
    /// The parked tasks, first parked first.
    pub closed spec fn parked(&self) -> Seq<PID> {
        self.parking@
    }

    /// The futex of the variable at `var`, with nobody parked.
    pub fn new(var: usize) -> (r: Futex)
        ensures
            r.var == var,
            r.parked().len() == 0,
    {
        Futex { var, parking: VecDeque::new() }
    }

    /// Task `running` waits while the variable holds `val`: when its current value `cur`
    /// is `val`, the task is parked (and must then yield the core); otherwise nothing
    /// happens. Gives back whether the task was parked.
    pub fn wait(&mut self, cur: usize, val: usize, running: PID) -> (r: bool)
        ensures
            r == (cur == val),
            final(self).var == old(self).var,
            r ==> final(self).parked() == old(self).parked().push(running),
            !r ==> final(self).parked() == old(self).parked(),
    {
        if cur == val {
            self.parking.push_back(running);
            true
        } else {
            false
        }
    }

    /// Wakes the task parked first, if any, by queueing it in the scheduler.
    pub fn wake_one(&mut self, sched: &mut SchedulerState) -> (r: Option<PID>)
        requires
            old(sched).wf(),
        ensures
            final(sched).wf(),
            final(self).var == old(self).var,
            final(sched).running() == old(sched).running(),
            old(self).parked().len() > 0 ==> {
                &&& r == Some(old(self).parked()[0])
                &&& final(self).parked() == old(self).parked().drop_first()
                &&& old(sched).queue().contains(old(self).parked()[0]) ==> final(sched).queue() == old(sched).queue()
                &&& !old(sched).queue().contains(old(self).parked()[0]) ==> final(sched).queue() == old(sched).queue().push(old(self).parked()[0])
            },
            old(self).parked().len() == 0 ==> {
                &&& r is None
                &&& final(self).parked() == old(self).parked()
                &&& final(sched).queue() == old(sched).queue()
            },
    {
        match self.parking.pop_front() {
            Some(pid) => {
                proof {
                    assert(self.parking@ =~= old(self).parking@.drop_first());
                }
                sched.add(pid);
                Some(pid)
            },
            None => None,
        }
    }
}

/// The futexes of a task, one per variable, found by the variable's address.
pub struct Futexes {
    keys: UsizeMap,
    f: Vec<Futex>,
}

impl Futexes {
    /// Every variable with a key has a futex of its own at that key.
    pub closed spec fn wf(&self) -> bool {
        let keys = usize_map_view(self.keys);
        &&& forall|v: usize| #[trigger] keys.contains_key(v) ==> keys[v] < self.f@.len() && self.f@[keys[v] as int].var == v
        &&& forall|i: int| 0 <= i < self.f@.len() ==> keys.contains_key(#[trigger] self.f@[i].var) && keys[self.f@[i].var] == i
    }

    /// The key of each variable that has a futex.
    pub closed spec fn view(&self) -> Map<usize, usize> {
        usize_map_view(self.keys)
    }

    /// The futexes, indexed by key.
    pub closed spec fn futexes(&self) -> Seq<Futex> {
        self.f@
    }

    /// No futexes.
    pub fn new() -> (r: Futexes)
        ensures
            r.wf(),
            r@.dom().is_empty(),
            r.futexes().len() == 0,
    {
        Futexes { keys: UsizeMap::new(), f: Vec::new() }
    }

    /// The key of the futex of `var`; a new futex is made for a variable seen first.
    fn var2key(&mut self, var: usize) -> (r: usize)
        requires
            old(self).wf(),
        ensures
            final(self).wf(),
            final(self)@.contains_key(var),
            r == final(self)@[var],
            r < final(self).futexes().len(),
            old(self)@.contains_key(var) ==> final(self)@ == old(self)@ && final(self).futexes() == old(self).futexes(),
            !old(self)@.contains_key(var) ==> {
                &&& final(self)@ == old(self)@.insert(var, old(self).futexes().len() as usize)
                &&& final(self).futexes().len() == old(self).futexes().len() + 1
                &&& final(self).futexes().take(old(self).futexes().len() as int) == old(self).futexes()
                &&& final(self).futexes().last().var == var
                &&& final(self).futexes().last().parked().len() == 0
            },
    {
        if !self.keys.contains_key(var) {
            let n = self.f.len();
            self.keys.insert(var, n);
            self.f.push(Futex::new(var));
            proof {
                let keys = usize_map_view(self.keys);
                assert forall|i: int| 0 <= i < self.f@.len() implies keys.contains_key(#[trigger] self.f@[i].var) && keys[self.f@[i].var] == i by {
                    if i < n {
                        assert(old(self).f@[i] == self.f@[i]);
                        assert(usize_map_view(old(self).keys).contains_key(self.f@[i].var));
                        if self.f@[i].var == var {
                            assert(false);
                        }
                    }
                }
                assert(self.f@.take(n as int) =~= old(self).f@);
            }
        }
        let key = match self.keys.get(var) {
            Some(k) => k,
            None => 0,
        };
        key
    }

    /// The tasks parked on the variable at `var` (none if it has no futex).
    pub closed spec fn parked_on(&self, var: usize) -> Seq<PID> {
        if self@.contains_key(var) {
            self.f@[self@[var] as int].parked()
        } else {
            Seq::empty()
        }
    }

    /// Runs `op` on the futex with key `key` in place.
    fn with_futex_wait(&mut self, key: usize, cur: usize, val: usize, running: PID) -> (r: bool)
        requires
            old(self).wf(),
            key < old(self).futexes().len(),
        ensures
            final(self).wf(),
            final(self)@ == old(self)@,
            r == (cur == val),
            final(self).futexes() == old(self).futexes().update(key as int, final(self).futexes()[key as int]),
            final(self).futexes()[key as int].var == old(self).futexes()[key as int].var,
            final(self).futexes()[key as int].parked() == (if r {
                old(self).futexes()[key as int].parked().push(running)
            } else {
                old(self).futexes()[key as int].parked()
            }),
    {
        let mut fx = self.f.remove(key);
        let r = fx.wait(cur, val, running);
        self.f.insert(key, fx);
        proof {
            assert(self.f@ =~= old(self).f@.update(key as int, fx));
            assert forall|i: int| 0 <= i < self.f@.len() implies usize_map_view(self.keys).contains_key(#[trigger] self.f@[i].var)
                && usize_map_view(self.keys)[self.f@[i].var] == i by {
                assert(self.f@[i].var == old(self).f@[i].var);
            }
        }
        r
    }

    /// Task `running` waits on the variable at `var`, which currently holds `cur`, while
    /// it holds `val`: it is parked when `cur == val` (and must then yield the core).
    /// Gives back whether it was parked.
    pub fn wait(&mut self, var: usize, cur: usize, val: usize, running: PID) -> (r: bool)
        requires
            old(self).wf(),
        ensures
            final(self).wf(),
            r == (cur == val),
            final(self)@.contains_key(var),
            final(self).parked_on(var) == (if r {
                old(self).parked_on(var).push(running)
            } else {
                old(self).parked_on(var)
            }),
            forall|v: usize| v != var ==> #[trigger] final(self).parked_on(v) == old(self).parked_on(v),
    {
        let key = self.var2key(var);
        let ghost mid = *self;
        let r = self.with_futex_wait(key, cur, val, running);
        proof {
            assert forall|v: usize| v != var implies #[trigger] self.parked_on(v) == old(self).parked_on(v) by {
                if old(self)@.contains_key(v) {
                    assert(mid@[v] == old(self)@[v]);
                    assert(mid@[v] != key);
                    assert(mid.futexes()[old(self)@[v] as int] == old(self).futexes()[old(self)@[v] as int]);
                }
            }
        }
        r
    }

    /// Wakes the task parked first on the variable at `var`, if any, by queueing it in
    /// the scheduler.
    pub fn wake_one(&mut self, var: usize, sched: &mut SchedulerState) -> (r: Option<PID>)
        requires
            old(self).wf(),
            old(sched).wf(),
        ensures
            final(self).wf(),
            final(sched).wf(),
            final(self)@.contains_key(var),
            final(sched).running() == old(sched).running(),
            old(self).parked_on(var).len() > 0 ==> {
                &&& r == Some(old(self).parked_on(var)[0])
                &&& final(self).parked_on(var) == old(self).parked_on(var).drop_first()
                &&& old(sched).queue().contains(r->Some_0) ==> final(sched).queue() == old(sched).queue()
                &&& !old(sched).queue().contains(r->Some_0) ==> final(sched).queue() == old(sched).queue().push(r->Some_0)
            },
            old(self).parked_on(var).len() == 0 ==> {
                &&& r is None
                &&& final(self).parked_on(var) == old(self).parked_on(var)
                &&& final(sched).queue() == old(sched).queue()
            },
            forall|v: usize| v != var ==> #[trigger] final(self).parked_on(v) == old(self).parked_on(v),
    {
        let key = self.var2key(var);
        let ghost mid = *self;
        let mut fx = self.f.remove(key);
        let r = fx.wake_one(sched);
        self.f.insert(key, fx);
        proof {
            assert(self.f@ =~= mid.f@.update(key as int, fx));
            assert forall|i: int| 0 <= i < self.f@.len() implies usize_map_view(self.keys).contains_key(#[trigger] self.f@[i].var)
                && usize_map_view(self.keys)[self.f@[i].var] == i by {
                assert(self.f@[i].var == mid.f@[i].var);
            }
            assert forall|v: usize| v != var implies #[trigger] self.parked_on(v) == old(self).parked_on(v) by {
                if old(self)@.contains_key(v) {
                    assert(mid@[v] == old(self)@[v]);
                    assert(mid@[v] != key);
                    assert(mid.futexes()[old(self)@[v] as int] == old(self).futexes()[old(self)@[v] as int]);
                }
            }
        }
        r
    }
}


/// Tasks are woken in the order they parked: after `p` parks behind `q`, a wake wakes
/// the first of `q`, or `p` when `q` is empty, and leaves the others parked in order.
pub proof fn law_wake_in_parking_order(q: Seq<PID>, p: PID)
    ensures
        q.push(p)[0] == (if q.len() > 0 { q[0] } else { p }),
        q.push(p).drop_first() == (if q.len() > 0 { q.drop_first().push(p) } else { Seq::<PID>::empty() }),
{
    if q.len() > 0 {
        assert(q.push(p).drop_first() =~= q.drop_first().push(p));
    } else {
        assert(q.push(p).drop_first() =~= Seq::<PID>::empty());
    }
}

} // verus!
