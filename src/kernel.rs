use vstd::prelude::*;
use crate::sched::{Scheduler, SpawnError, TaskState};
use crate::timer::{TimerWheel, VirtualTimer, NUM_TIMERS, HALF_RANGE, wrap_add, fired_slots, after_tick, fires};

verus! {

/// The callback task of each slot in `fired`, in order.
pub open spec fn callbacks(slots: Seq<VirtualTimer>, fired: Seq<usize>) -> Seq<u8> {
    Seq::new(fired.len(), |k: int| slots[fired[k] as int].callback_id)
}

/// Whether task `u` occurs in `cbs`.
pub open spec fn names(cbs: Seq<u8>, u: usize) -> bool {
    exists|k: int| 0 <= k < cbs.len() && #[trigger] cbs[k] as usize == u
}

/// Those of the first `k` spawns of `cbs` that find their task already
/// pending, starting from scheduler state `s`: the task was not dormant in
/// `s`, or an earlier spawn of `cbs` woke it.
pub open spec fn dropped_spawns(s: Scheduler, cbs: Seq<u8>, k: nat) -> Seq<u8>
    decreases k,
{
    if k == 0 {
        Seq::<u8>::empty()
    } else {
        let p = dropped_spawns(s, cbs, (k - 1) as nat);
        let c = cbs[k - 1];
        if s.task_state(c as int) != TaskState::Dormant || cbs.subrange(0, k - 1).contains(c) {
            p.push(c)
        } else {
            p
        }
    }
}

/// The argument that each slot in `fired` hands its callback, in order.
pub open spec fn callback_args(slot_args: Seq<u32>, fired: Seq<usize>) -> Seq<u32> {
    Seq::new(fired.len(), |k: int| slot_args[fired[k] as int])
}

/// `states` runs from `first` to `last` by one `spawn(cbs[k], args[k])` per
/// step, in order.
pub open spec fn spawn_chain(
    first: Scheduler,
    cbs: Seq<u8>,
    args: Seq<u32>,
    states: Seq<Scheduler>,
    last: Scheduler,
) -> bool {
    &&& states.len() == cbs.len() + 1
    &&& args.len() == cbs.len()
    &&& states[0] == first
    &&& states[states.len() - 1] == last
    &&& forall|k: int|
        0 <= k < cbs.len() ==> #[trigger] states[k].spawn_step(cbs[k] as usize, args[k], states[k + 1])
}

/// The scheduler and the timer multiplexer that spawns into it.
pub struct Kernel {
    pub sched: Scheduler,
    pub timers: TimerWheel,
    /// For each slot, the argument it hands its callback task.
    pub slot_args: Vec<u32>,
}

impl Kernel {
    /// Both parts well formed, and every armed slot calls back a declared task.
    pub open spec fn wf(&self) -> bool {
        &&& self.sched.wf()
        &&& self.timers.wf()
        &&& self.spec_slot_args().len() == NUM_TIMERS
        &&& forall|i: int|
            0 <= i < NUM_TIMERS && (#[trigger] self.timers.spec_slots()[i]).active
                ==> (self.timers.spec_slots()[i].callback_id as int) < self.sched.num_tasks()
    }

    /// For each slot, the argument it hands its callback task.
    pub closed spec fn spec_slot_args(&self) -> Seq<u32> {
        self.slot_args@
    }

    /// The arguments that the next tick's spawns carry, in slot order.
    pub open spec fn tick_args(&self) -> Seq<u32> {
        callback_args(
            self.spec_slot_args(),
            fired_slots(self.timers.spec_slots(), wrap_add(self.timers.spec_now(), 1), NUM_TIMERS as nat),
        )
    }

    /// Some armed timer slot will spawn `u`.
    pub open spec fn has_timer(&self, u: int) -> bool {
        exists|i: int|
            0 <= i < NUM_TIMERS && (#[trigger] self.timers.spec_slots()[i]).active
                && self.timers.spec_slots()[i].callback_id as int == u
    }

    /// The scheduler's view of `u`, except that a dormant task with an armed
    /// timer entry is Pending.
    pub open spec fn task_state(&self, u: int) -> TaskState {
        if self.sched.task_state(u) == TaskState::Dormant && self.has_timer(u) {
            TaskState::Pending
        } else {
            self.sched.task_state(u)
        }
    }

    /// The state of task `u`.
    pub fn state(&self, u: usize) -> (r: TaskState)
        requires
            self.wf(),
            u < self.sched.num_tasks(),
        ensures
            r == self.task_state(u as int),
    {
        let s = self.sched.state(u);
        match s {
            TaskState::Dormant => {},
            _ => {
                return s;
            },
        }
        let mut i: usize = 0;
        while i < NUM_TIMERS
            invariant
                self.wf(),
                u < self.sched.num_tasks(),
                self.sched.task_state(u as int) == TaskState::Dormant,
                i <= NUM_TIMERS,
                forall|k: int|
                    0 <= k < i ==> !((#[trigger] self.timers.spec_slots()[k]).active
                        && self.timers.spec_slots()[k].callback_id as int == u as int),
            decreases NUM_TIMERS - i,
        {
            let t = self.timers.slot(i);
            if t.active && t.callback_id as usize == u {
                assert(self.timers.spec_slots()[i as int].active);
                assert(self.has_timer(u as int));
                return TaskState::Pending;
            }
            i = i + 1;
        }
        TaskState::Dormant
    }

    /// The callback tasks that the next tick spawns, in slot order.
    pub open spec fn tick_callbacks(&self) -> Seq<u8> {
        callbacks(
            self.timers.spec_slots(),
            fired_slots(self.timers.spec_slots(), wrap_add(self.timers.spec_now(), 1), NUM_TIMERS as nat),
        )
    }

    /// A kernel over the given task table, with all timers idle at tick 0.
    pub fn new(priorities: Vec<u8>) -> (r: Kernel)
        ensures
            r.wf(),
            r.sched.spec_priorities() == priorities@,
            r.sched.spec_running() is None,
            r.sched.spec_ready().len() == 0,
            r.timers.spec_now() == 0,
            forall|i: int| 0 <= i < NUM_TIMERS ==> !(#[trigger] r.timers.spec_slots()[i]).active,
    {
        let mut slot_args: Vec<u32> = Vec::new();
        let mut i: usize = 0;
        while i < NUM_TIMERS
            invariant
                i <= NUM_TIMERS,
                slot_args@.len() == i,
            decreases NUM_TIMERS - i,
        {
            slot_args.push(0);
            i = i + 1;
        }
        Kernel { sched: Scheduler::new(priorities), timers: TimerWheel::new(), slot_args }
    }

    /// Arms `slot` to spawn `task` every `period` ticks, the first time
    /// `period` ticks from now; the task's argument is the slot number.
    pub fn start_timer(&mut self, slot: usize, period: u32, task: u8)
        requires
            old(self).wf(),
            slot < NUM_TIMERS,
            period < HALF_RANGE,
            (task as int) < old(self).sched.num_tasks(),
        ensures
            final(self).wf(),
            final(self).sched == old(self).sched,
            final(self).timers.spec_now() == old(self).timers.spec_now(),
            final(self).timers.spec_slots() == old(self).timers.spec_slots().update(
                slot as int,
                VirtualTimer {
                    deadline: wrap_add(old(self).timers.spec_now(), period),
                    period,
                    active: true,
                    callback_id: task,
                },
            ),
            final(self).spec_slot_args() == old(self).spec_slot_args().update(slot as int, slot as u32),
    {
        self.timers.arm(slot, period, period, task);
        self.slot_args.set(slot, slot as u32);
    }

    /// Deactivates `slot`: no later tick fires it.
    pub fn cancel_timer(&mut self, slot: usize)
        requires
            old(self).wf(),
            slot < NUM_TIMERS,
        ensures
            final(self).wf(),
            final(self).sched == old(self).sched,
            final(self).timers.spec_now() == old(self).timers.spec_now(),
            final(self).timers.spec_slots() == old(self).timers.spec_slots().update(
                slot as int,
                VirtualTimer { active: false, ..old(self).timers.spec_slots()[slot as int] },
            ),
            final(self).spec_slot_args() == old(self).spec_slot_args(),
    {
        self.timers.cancel_timer(slot);
    }

    /// Registers a one-shot entry that spawns `task` with `arg` `delay` ticks
    /// from now, in the first idle slot; with every slot busy, `QueueFull`.
    pub fn spawn_after(&mut self, task: u8, arg: u32, delay: u32) -> (r: Result<(), SpawnError>)
        requires
            old(self).wf(),
            (task as int) < old(self).sched.num_tasks(),
            delay < HALF_RANGE,
        ensures
            final(self).wf(),
            final(self).sched == old(self).sched,
            final(self).timers.spec_now() == old(self).timers.spec_now(),
            r is Err <==> forall|i: int| 0 <= i < NUM_TIMERS ==> (#[trigger] old(self).timers.spec_slots()[i]).active,
            r is Err ==> final(self).timers.spec_slots() == old(self).timers.spec_slots(),
            r is Err ==> final(self).spec_slot_args() == old(self).spec_slot_args(),
            r is Ok ==> exists|s: int|
                0 <= s < NUM_TIMERS && !old(self).timers.spec_slots()[s].active && (forall|i: int|
                    0 <= i < s ==> (#[trigger] old(self).timers.spec_slots()[i]).active) && final(self).timers.spec_slots()
                    == #[trigger] old(self).timers.spec_slots().update(
                    s,
                    VirtualTimer {
                        deadline: wrap_add(old(self).timers.spec_now(), delay),
                        period: 0,
                        active: true,
                        callback_id: task,
                    },
                ) && final(self).spec_slot_args() == old(self).spec_slot_args().update(s, arg),
    {
        match self.timers.free_slot() {
            None => Err(SpawnError::QueueFull),
            Some(s) => {
                self.timers.arm(s, delay, 0, task);
                self.slot_args.set(s, arg);
                Ok(())
            },
        }
    }

    /// One hardware tick: advances the timers, then spawns the callback
    /// task of every slot that fired, in slot order. Returns the callback
    /// tasks whose spawn found them already pending (`QueueFull`). Each spawn
    /// carries the argument that its slot holds.
    pub fn tick(&mut self) -> (dropped: Vec<u8>)
        requires
            old(self).wf(),
        ensures
            final(self).wf(),
            final(self).timers.spec_now() == wrap_add(old(self).timers.spec_now(), 1),
            forall|i: int|
                0 <= i < NUM_TIMERS ==> final(self).timers.spec_slots()[i] == after_tick(
                    #[trigger] old(self).timers.spec_slots()[i],
                    final(self).timers.spec_now(),
                ),
            final(self).sched.spec_priorities() == old(self).sched.spec_priorities(),
            final(self).sched.spec_resources() == old(self).sched.spec_resources(),
            final(self).spec_slot_args() == old(self).spec_slot_args(),
            exists|states: Seq<Scheduler>|
                #[trigger] spawn_chain(old(self).sched, old(self).tick_callbacks(), old(self).tick_args(), states, final(self).sched),
            dropped@ == dropped_spawns(old(self).sched, old(self).tick_callbacks(), old(self).tick_callbacks().len()),
            forall|u: usize|
                u < old(self).sched.num_tasks() ==> (#[trigger] final(self).sched.task_state(u as int) != TaskState::Dormant
                    <==> (old(self).sched.task_state(u as int) != TaskState::Dormant || names(old(self).tick_callbacks(), u))),
    {
        let ghost old_slots = self.timers.spec_slots();
        let fired = self.timers.tick();
        let ghost now = self.timers.spec_now();
        let ghost cbs = callbacks(old_slots, fired@);
        let ghost cargs = callback_args(self.slot_args@, fired@);
        let ghost mut states: Seq<Scheduler> = seq![self.sched];
        let mut dropped: Vec<u8> = Vec::new();
        let mut i: usize = 0;
        proof {
            assert forall|k: int| 0 <= k < fired@.len() implies #[trigger] fired@[k] < NUM_TIMERS && old_slots[fired@[k] as int].active
                && self.timers.spec_slots()[fired@[k] as int].callback_id == old_slots[fired@[k] as int].callback_id by {
                lemma_fired_slots(old_slots, now, NUM_TIMERS as nat, k);
            }
        }
        while i < fired.len()
            invariant
                self.sched.wf(),
                self.timers.wf(),
                fired@ == fired_slots(old_slots, now, NUM_TIMERS as nat),
                self.timers.spec_now() == now,
                old_slots.len() == NUM_TIMERS,
                forall|j: int| 0 <= j < NUM_TIMERS ==> self.timers.spec_slots()[j] == after_tick(#[trigger] old_slots[j], now),
                forall|j: int|
                    0 <= j < NUM_TIMERS && (#[trigger] old_slots[j]).active ==> (old_slots[j].callback_id as int)
                        < self.sched.num_tasks(),
                forall|k: int| 0 <= k < fired@.len() ==> #[trigger] fired@[k] < NUM_TIMERS && old_slots[fired@[k] as int].active
                    && self.timers.spec_slots()[fired@[k] as int].callback_id == old_slots[fired@[k] as int].callback_id,
                self.sched.spec_priorities() == old(self).sched.spec_priorities(),
                self.sched.spec_resources() == old(self).sched.spec_resources(),
                i <= fired@.len(),
                cbs == callbacks(old_slots, fired@),
                cargs == callback_args(self.slot_args@, fired@),
                self.slot_args@ == old(self).slot_args@,
                self.slot_args@.len() == NUM_TIMERS,
                states.len() == i + 1,
                states[0] == old(self).sched,
                states[i as int] == self.sched,
                forall|k: int| 0 <= k < i ==> #[trigger] states[k].spawn_step(cbs[k] as usize, cargs[k], states[k + 1]),
                dropped@ == dropped_spawns(old(self).sched, cbs, i as nat),
                forall|u: usize|
                    u < old(self).sched.num_tasks() ==> (#[trigger] self.sched.task_state(u as int) != TaskState::Dormant
                        <==> (old(self).sched.task_state(u as int) != TaskState::Dormant || names(cbs.subrange(0, i as int), u))),
            decreases fired@.len() - i,
        {
            let s = fired[i];
            let task = self.timers.slot(s).callback_id;
            assert(old_slots[s as int].active);
            assert(cbs[i as int] == task);
            let ghost before = self.sched;
            proof {
                let sub = cbs.subrange(0, i as int);
                if sub.contains(task) {
                    let k = choose|k: int| 0 <= k < sub.len() && sub[k] == task;
                    assert(sub[k] as usize == task as usize);
                }
                if names(sub, task as usize) {
                    let k = choose|k: int| 0 <= k < sub.len() && #[trigger] sub[k] as usize == task as usize;
                    assert(sub[k] == task);
                }
            }
            let arg = self.slot_args[s];
            assert(cargs[i as int] == arg);
            match self.sched.spawn(task as usize, arg) {
                Ok(()) => {},
                Err(_) => {
                    dropped.push(task);
                },
            }
            proof {
                let ghost prev = states;
                states = states.push(self.sched);
                assert forall|k: int| 0 <= k < i + 1 implies #[trigger] states[k].spawn_step(cbs[k] as usize, cargs[k], states[k + 1]) by {
                    if k < i {
                        assert(prev[k].spawn_step(cbs[k] as usize, cargs[k], prev[k + 1]));
                    }
                }
            }
            proof {
                let sub = cbs.subrange(0, i as int);
                let sub2 = cbs.subrange(0, i + 1);
                assert(sub2 =~= sub.push(task));
                assert forall|u: usize| u < old(self).sched.num_tasks() implies (#[trigger] self.sched.task_state(u as int)
                    != TaskState::Dormant <==> (old(self).sched.task_state(u as int) != TaskState::Dormant || names(sub2, u))) by {
                    if names(sub2, u) && !names(sub, u) {
                        let k = choose|k: int| 0 <= k < sub2.len() && #[trigger] sub2[k] as usize == u;
                        if k < sub.len() {
                            assert(sub[k] as usize == u);
                        }
                    }
                    if names(sub, u) {
                        let k = choose|k: int| 0 <= k < sub.len() && #[trigger] sub[k] as usize == u;
                        assert(sub2[k] as usize == u);
                    }
                    if u == task as usize {
                        assert(sub2[i as int] as usize == u);
                    } else {
                        assert(before.task_state(u as int) != TaskState::Dormant <==> (old(self).sched.task_state(u as int) != TaskState::Dormant || names(sub, u)));
                    }
                }
            }
            i = i + 1;
        }
        proof {
            assert(cbs.subrange(0, fired@.len() as int) =~= cbs);
            assert(spawn_chain(old(self).sched, cbs, cargs, states, self.sched));
            assert(now == wrap_add(old(self).timers.spec_now(), 1));
            assert(cbs == old(self).tick_callbacks());
            assert(old(self).spec_slot_args() == self.slot_args@);
            assert(cargs == old(self).tick_args());
            assert(cbs.len() == fired@.len());
            assert forall|j: int|
                0 <= j < NUM_TIMERS && (#[trigger] self.timers.spec_slots()[j]).active implies (self.timers.spec_slots()[j].callback_id as int)
                    < self.sched.num_tasks() by {
                assert(self.timers.spec_slots()[j] == after_tick(old_slots[j], now));
            }
        }
        dropped
    }
}

/// Each slot that `fired_slots` lists lies in range and was active.
proof fn lemma_fired_slots(ts: Seq<VirtualTimer>, now: u32, n: nat, k: int)
    requires
        n <= ts.len(),
        n <= NUM_TIMERS,
        0 <= k < fired_slots(ts, now, n).len(),
    ensures
        fired_slots(ts, now, n)[k] < n,
        ts[fired_slots(ts, now, n)[k] as int].active,
    decreases n,
{
    if n > 0 {
        let p = fired_slots(ts, now, (n - 1) as nat);
        if k < p.len() {
            lemma_fired_slots(ts, now, (n - 1) as nat, k);
        } else {
            assert(fires(ts[n - 1], now));
        }
    }
}

} // verus!
