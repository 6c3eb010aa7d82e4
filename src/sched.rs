use vstd::prelude::*;

verus! {

/// Where a task instance stands.
#[derive(Clone, Copy, Debug, PartialEq, Eq, Structural)]
pub enum TaskState {
    Dormant,
    /// Dormant, with a timer entry armed to spawn it.
    Pending,
    Ready,
    Running,
    Blocked,
}

/// `spawn` found the task's single pending-instance slot taken.
#[derive(Clone, Copy, Debug, PartialEq, Eq, Structural)]
pub enum SpawnError {
    QueueFull,
}

/// What a lock request came to.
#[derive(Clone, Copy, Debug, PartialEq, Eq, Structural)]
pub enum LockOutcome {
    /// The requester now holds the resource and keeps running.
    Acquired,
    /// The resource is held by another task: the requester waits for it.
    Blocked,
}

/// A shared resource. A protected one carries a priority ceiling that
/// applies while it is held; an unprotected one is a plain guarded section.
#[derive(Clone, Copy, Debug, PartialEq, Eq, Structural)]
pub struct Resource {
    pub ceiling: u8,
    pub protected: bool,
    pub holder: Option<usize>,
    pub data: u32,
}

/// Whether resource `r` keeps task `t` of priority `p` from being dispatched:
/// it is protected, held by another task, and its ceiling reaches `p`.
pub open spec fn blocks(r: Resource, t: int, p: int) -> bool {
    r.protected && r.holder is Some && r.holder->0 != t && p <= r.ceiling
}

/// Fixed-priority preemptive dispatcher over a boot-time task table, with
/// the priority-ceiling protocol on its resources. Task `t` has priority
/// `priorities[t]`; a larger number is a higher priority.
pub struct Scheduler {
    priorities: Vec<u8>,
    ready: Vec<usize>,
    running: Option<usize>,
    waiting: Vec<Option<usize>>,
    args: Vec<u32>,
    resources: Vec<Resource>,
}

impl Scheduler {
    pub closed spec fn spec_priorities(&self) -> Seq<u8> {
        self.priorities@
    }

    /// Queued instances in arrival order (a preempted task re-enters at the front).
    pub closed spec fn spec_ready(&self) -> Seq<usize> {
        self.ready@
    }

    pub closed spec fn spec_running(&self) -> Option<usize> {
        self.running
    }

    /// For each task, the unprotected resource it is waiting to acquire.
    /// For each task, the argument of its latest spawn.
    pub closed spec fn spec_args(&self) -> Seq<u32> {
        self.args@
    }

    pub closed spec fn spec_waiting(&self) -> Seq<Option<usize>> {
        self.waiting@
    }

    pub closed spec fn spec_resources(&self) -> Seq<Resource> {
        self.resources@
    }

    pub open spec fn num_tasks(&self) -> nat {
        self.spec_priorities().len()
    }

    pub open spec fn prio(&self, t: int) -> int {
        self.spec_priorities()[t] as int
    }

    /// No held protected resource keeps `t` from being dispatched.
    pub open spec fn eligible(&self, t: int) -> bool {
        forall|i: int|
            0 <= i < self.spec_resources().len() ==> !#[trigger] blocks(
                self.spec_resources()[i],
                t,
                self.prio(t),
            )
    }

    pub open spec fn task_state(&self, t: int) -> TaskState {
        if self.spec_running() == Some(t as usize) {
            TaskState::Running
        } else if self.spec_ready().contains(t as usize) {
            if self.eligible(t) {
                TaskState::Ready
            } else {
                TaskState::Blocked
            }
        } else if self.spec_waiting()[t] is Some {
            TaskState::Blocked
        } else {
            TaskState::Dormant
        }
    }

    /// The structural invariant: indices in range, one instance per task,
    /// waiting tasks neither queued nor running, the running task free to run.
    pub open spec fn structure_wf(&self) -> bool {
        &&& self.spec_waiting().len() == self.num_tasks()
        &&& self.spec_args().len() == self.num_tasks()
        &&& self.spec_ready().no_duplicates()
        &&& forall|t: usize| #[trigger] self.spec_ready().contains(t) ==> t < self.num_tasks()
        &&& forall|i: int|
            0 <= i < self.spec_resources().len() && (#[trigger] self.spec_resources()[i]).holder is Some
                ==> self.spec_resources()[i].holder->0 < self.num_tasks()
        &&& forall|t: usize|
            t < self.num_tasks() && (#[trigger] self.spec_waiting()[t as int]) is Some ==> {
                let x = self.spec_waiting()[t as int]->0 as int;
                &&& x < self.spec_resources().len()
                &&& !self.spec_resources()[x].protected
                &&& self.spec_resources()[x].holder is Some
                &&& self.spec_resources()[x].holder->0 != t
                &&& !self.spec_ready().contains(t)
                &&& self.spec_running() != Some(t)
            }
        &&& self.spec_running() is Some ==> {
            let r = self.spec_running()->0;
            &&& r < self.num_tasks()
            &&& !self.spec_ready().contains(r)
            &&& self.spec_waiting()[r as int] is None
            &&& self.eligible(r as int)
        }
    }

    /// The running task's priority is at least that of every Ready task;
    /// with nothing running, no task is Ready.
    pub open spec fn running_dominates(&self) -> bool {
        forall|t: usize|
            #[trigger] self.spec_ready().contains(t) && self.eligible(t as int)
                ==> self.spec_running() is Some && self.prio(t as int) <= self.prio(
                self.spec_running()->0 as int,
            )
    }

    /// This state is the one reached when running task `r` gave way to
    /// `q[b]`, the task to dispatch from the queue `q`, whose priority is
    /// strictly higher; `r` then heads the queue.
    pub open spec fn gave_way(&self, r: usize, q: Seq<usize>, b: int) -> bool {
        &&& self.first_best(q, b)
        &&& self.prio(q[b] as int) > self.prio(r as int)
        &&& self.spec_running() == Some(q[b])
        &&& self.spec_ready() == seq![r] + q.remove(b)
    }

    /// `post` is this state after `spawn(t, arg)`: unchanged when `t` is not
    /// dormant; otherwise `t` takes `arg` and is queued, and runs at once when
    /// it is free to run and outranks the running task, which then heads the
    /// queue.
    pub open spec fn spawn_step(&self, t: usize, arg: u32, post: Scheduler) -> bool {
        if self.task_state(t as int) != TaskState::Dormant {
            post == *self
        } else {
            &&& post.spec_priorities() == self.spec_priorities()
            &&& post.spec_resources() == self.spec_resources()
            &&& post.spec_waiting() == self.spec_waiting()
            &&& post.spec_args() == self.spec_args().update(t as int, arg)
            &&& if self.spec_running() is None {
                if self.eligible(t as int) {
                    post.spec_running() == Some(t) && post.spec_ready() == self.spec_ready()
                } else {
                    post.spec_running() is None && post.spec_ready() == self.spec_ready().push(t)
                }
            } else if self.eligible(t as int) && self.prio(t as int) > self.prio(
                self.spec_running()->0 as int,
            ) {
                post.spec_running() == Some(t) && post.spec_ready() == seq![self.spec_running()->0]
                    + self.spec_ready()
            } else {
                post.spec_running() == self.spec_running() && post.spec_ready() == self.spec_ready().push(
                    t,
                )
            }
        }
    }

    pub open spec fn wf(&self) -> bool {
        self.structure_wf() && self.running_dominates()
    }

    /// `q[b]` is the task to dispatch from `q`: eligible, of the highest
    /// priority among the eligible, and the earliest of that priority.
    pub open spec fn first_best(&self, q: Seq<usize>, b: int) -> bool {
        &&& 0 <= b < q.len()
        &&& self.eligible(q[b] as int)
        &&& forall|i: int|
            0 <= i < q.len() && self.eligible(#[trigger] q[i] as int) ==> self.prio(q[i] as int)
                <= self.prio(q[b] as int)
        &&& forall|i: int|
            0 <= i < b && self.eligible(#[trigger] q[i] as int) ==> self.prio(q[i] as int) < self.prio(
                q[b] as int,
            )
    }

    /// `w` is the task that a release of `res` hands it to: of the highest
    /// priority among the tasks waiting for `res`, the lowest id among those.
    pub open spec fn first_waiter(&self, res: usize, w: int) -> bool {
        &&& 0 <= w < self.num_tasks()
        &&& self.spec_waiting()[w] == Some(res)
        &&& forall|t: int|
            0 <= t < self.num_tasks() && #[trigger] self.spec_waiting()[t] == Some(res) ==> self.prio(t)
                <= self.prio(w)
        &&& forall|t: int|
            0 <= t < w && #[trigger] self.spec_waiting()[t] == Some(res) ==> self.prio(t) < self.prio(w)
    }

    /// A table of tasks with the given priorities, all dormant, and no resources.
    pub fn new(priorities: Vec<u8>) -> (r: Scheduler)
        ensures
            r.wf(),
            r.spec_priorities() == priorities@,
            r.spec_ready() == Seq::<usize>::empty(),
            r.spec_running() is None,
            r.spec_resources() == Seq::<Resource>::empty(),
            forall|t: int| 0 <= t < priorities@.len() ==> r.spec_waiting()[t] is None,
            forall|t: int| 0 <= t < priorities@.len() ==> r.spec_args()[t] == 0,
    {
        let mut waiting: Vec<Option<usize>> = Vec::new();
        let mut args: Vec<u32> = Vec::new();
        let mut i: usize = 0;
        while i < priorities.len()
            invariant
                i <= priorities@.len(),
                waiting@.len() == i,
                args@.len() == i,
                forall|k: int| 0 <= k < i ==> waiting@[k] is None,
                forall|k: int| 0 <= k < i ==> args@[k] == 0,
            decreases priorities@.len() - i,
        {
            waiting.push(None);
            args.push(0);
            i = i + 1;
        }
        Scheduler { priorities, ready: Vec::new(), running: None, waiting, args, resources: Vec::new() }
    }

    /// Declares a free resource; returns its id.
    pub fn add_resource(&mut self, ceiling: u8, protected: bool) -> (id: usize)
        requires
            old(self).wf(),
            old(self).spec_resources().len() < usize::MAX,
        ensures
            final(self).wf(),
            id == old(self).spec_resources().len(),
            final(self).spec_resources() == old(self).spec_resources().push(
                Resource { ceiling, protected, holder: None, data: 0 },
            ),
            final(self).spec_priorities() == old(self).spec_priorities(),
            final(self).spec_ready() == old(self).spec_ready(),
            final(self).spec_running() == old(self).spec_running(),
            final(self).spec_waiting() == old(self).spec_waiting(),
            final(self).spec_args() == old(self).spec_args(),
    {
        let id = self.resources.len();
        self.resources.push(Resource { ceiling, protected, holder: None, data: 0 });
        proof {
            assert forall|i: int|
                0 <= i < self.resources@.len() && (#[trigger] self.resources@[i]).holder is Some
                    implies self.resources@[i].holder->0 < self.priorities@.len() by {
                assert(i < id);
                assert(self.resources@[i] == old(self).resources@[i]);
            }
            assert forall|t: int| self.eligible(t) == old(self).eligible(t) by {
                if old(self).eligible(t) {
                    assert forall|i: int| 0 <= i < self.spec_resources().len() implies !#[trigger] blocks(
                        self.spec_resources()[i],
                        t,
                        self.prio(t),
                    ) by {
                        if i < id {
                            assert(!blocks(old(self).spec_resources()[i], t, old(self).prio(t)));
                        }
                    }
                }
                if self.eligible(t) {
                    assert forall|i: int| 0 <= i < old(self).spec_resources().len() implies !#[trigger] blocks(
                        old(self).spec_resources()[i],
                        t,
                        old(self).prio(t),
                    ) by {
                        assert(!blocks(self.spec_resources()[i], t, self.prio(t)));
                    }
                }
            }
            assert forall|t: usize|
                t < self.priorities@.len() && (#[trigger] self.waiting@[t as int]) is Some
                    implies self.waiting@[t as int]->0 < self.resources@.len() && !self.resources@[self.waiting@[t as int]->0 as int].protected
                        && self.resources@[self.waiting@[t as int]->0 as int].holder is Some
                        && self.resources@[self.waiting@[t as int]->0 as int].holder->0 != t by {
                let x = self.waiting@[t as int]->0 as int;
                assert(self.resources@[x] == old(self).resources@[x]);
            }
        }
        id
    }

    pub fn priority(&self, t: usize) -> (r: u8)
        requires
            t < self.num_tasks(),
        ensures
            r == self.spec_priorities()[t as int],
    {
        self.priorities[t]
    }

    /// The argument of task `t`'s latest spawn.
    pub fn arg(&self, t: usize) -> (r: u32)
        requires
            self.structure_wf(),
            t < self.num_tasks(),
        ensures
            r == self.spec_args()[t as int],
    {
        self.args[t]
    }

    pub fn running(&self) -> (r: Option<usize>)
        ensures
            r == self.spec_running(),
    {
        self.running
    }


    /// Whether an instance of `t` is queued.
    fn is_queued(&self, t: usize) -> (r: bool)
        ensures
            r == self.spec_ready().contains(t),
    {
        let mut i: usize = 0;
        while i < self.ready.len()
            invariant
                i <= self.ready@.len(),
                forall|k: int| 0 <= k < i ==> self.ready@[k] != t,
            decreases self.ready@.len() - i,
        {
            if self.ready[i] == t {
                return true;
            }
            i = i + 1;
        }
        false
    }

    /// The index in the ready queue of the task to dispatch, if any is eligible.
    fn find_best(&self) -> (r: Option<usize>)
        requires
            self.structure_wf(),
        ensures
            r is None ==> forall|t: usize| #[trigger]
                self.spec_ready().contains(t) ==> !self.eligible(t as int),
            r is Some ==> self.first_best(self.spec_ready(), r->0 as int),
    {
        let mut best: Option<usize> = None;
        let mut i: usize = 0;
        while i < self.ready.len()
            invariant
                self.structure_wf(),
                i <= self.ready@.len(),
                best is None ==> forall|k: int| 0 <= k < i ==> !self.eligible(#[trigger] self.ready@[k] as int),
                best is Some ==> {
                    let b = best->0 as int;
                    &&& b < i
                    &&& self.eligible(self.ready@[b] as int)
                    &&& forall|k: int|
                        0 <= k < i && self.eligible(#[trigger] self.ready@[k] as int) ==> self.prio(
                            self.ready@[k] as int,
                        ) <= self.prio(self.ready@[b] as int)
                    &&& forall|k: int|
                        0 <= k < b && self.eligible(#[trigger] self.ready@[k] as int) ==> self.prio(
                            self.ready@[k] as int,
                        ) < self.prio(self.ready@[b] as int)
                },
            decreases self.ready@.len() - i,
        {
            let t = self.ready[i];
            assert(self.spec_ready().contains(t));
            if self.is_eligible(t) {
                match best {
                    None => {
                        best = Some(i);
                    },
                    Some(b) => {
                        assert(self.spec_ready().contains(self.ready@[b as int]));
                        if self.priorities[t] > self.priorities[self.ready[b]] {
                            best = Some(i);
                        }
                    },
                }
            }
            i = i + 1;
        }
        best
    }

    /// With nothing running, dispatches the task `find_best` names.
    fn dispatch_idle(&mut self)
        requires
            old(self).structure_wf(),
            old(self).spec_running() is None,
        ensures
            final(self).wf(),
            final(self).spec_priorities() == old(self).spec_priorities(),
            final(self).spec_resources() == old(self).spec_resources(),
            final(self).spec_waiting() == old(self).spec_waiting(),
            final(self).spec_args() == old(self).spec_args(),
            final(self).spec_running() is None ==> final(self).spec_ready() == old(self).spec_ready(),
            final(self).spec_running() is None ==> forall|t: usize| #[trigger]
                old(self).spec_ready().contains(t) ==> !old(self).eligible(t as int),
            final(self).spec_running() is Some ==> exists|b: int|
                old(self).first_best(old(self).spec_ready(), b) && final(self).spec_running() == Some(
                    old(self).spec_ready()[b],
                ) && final(self).spec_ready() == old(self).spec_ready().remove(b),
    {
        match self.find_best() {
            None => {},
            Some(b) => {
                let ghost q = self.ready@;
                let t = self.ready.remove(b);
                proof { lemma_remove(q, b as int); }
                assert(q.contains(t));
                self.running = Some(t);
                assert(old(self).first_best(q, b as int));
            },
        }
    }

    /// With `r` running, preempts it if an eligible queued task has a
    /// strictly higher priority: `r` goes back to the front of the queue.
    fn reschedule(&mut self)
        requires
            old(self).structure_wf(),
            old(self).spec_running() is Some,
        ensures
            final(self).wf(),
            final(self).spec_priorities() == old(self).spec_priorities(),
            final(self).spec_resources() == old(self).spec_resources(),
            final(self).spec_waiting() == old(self).spec_waiting(),
            final(self).spec_args() == old(self).spec_args(),
            (final(self).spec_running() == old(self).spec_running() && final(self).spec_ready()
                == old(self).spec_ready()) || exists|b: int|
                final(self).gave_way(old(self).spec_running()->0, old(self).spec_ready(), b),
    {
        let r = self.running.unwrap();
        match self.find_best() {
            None => {},
            Some(b) => {
                let t = self.ready[b];
                assert(self.spec_ready().contains(t));
                if self.priorities[t] > self.priorities[r] {
                    let ghost q = self.ready@;
                    self.ready.remove(b);
                    proof { lemma_remove(q, b as int); }
                    self.ready.insert(0, r);
                    proof { lemma_push_front(q.remove(b as int), r); }
                    assert(self.ready@ == seq![r] + q.remove(b as int));
                    assert(q.contains(t));
                    self.running = Some(t);
                    proof { lemma_same_eligibility(*self, *old(self)); }
                    assert(self.gave_way(r, q, b as int));
                }
            },
        }
    }

    /// The state of task `t`.
    pub fn state(&self, t: usize) -> (r: TaskState)
        requires
            self.structure_wf(),
            t < self.num_tasks(),
        ensures
            r == self.task_state(t as int),
    {
        let running = match self.running {
            Some(x) => x == t,
            None => false,
        };
        if running {
            TaskState::Running
        } else if self.is_queued(t) {
            if self.is_eligible(t) {
                TaskState::Ready
            } else {
                TaskState::Blocked
            }
        } else if self.waiting[t].is_some() {
            TaskState::Blocked
        } else {
            TaskState::Dormant
        }
    }

    /// Makes a dormant task `t` ready with argument `arg`, and dispatches. A task that is already
    /// queued, running or waiting has its one pending-instance slot taken:
    /// `QueueFull`, and nothing changes. A newly ready task of strictly higher
    /// priority than the running one, and free to run under the held
    /// ceilings, preempts it; the preempted task goes back to the front of
    /// the queue.
    pub fn spawn(&mut self, t: usize, arg: u32) -> (r: Result<(), SpawnError>)
        requires
            old(self).wf(),
            t < old(self).num_tasks(),
        ensures
            final(self).wf(),
            r is Err <==> old(self).task_state(t as int) != TaskState::Dormant,
            old(self).spawn_step(t, arg, *final(self)),
            final(self).task_state(t as int) != TaskState::Dormant,
            forall|u: usize|
                u < old(self).num_tasks() && u != t && old(self).task_state(u as int) == TaskState::Dormant ==> #[trigger] final(self).task_state(u as int)
                    == TaskState::Dormant,
            forall|u: int|
                0 <= u < old(self).num_tasks() && old(self).task_state(u) != TaskState::Dormant ==> #[trigger] final(self).task_state(u)
                    != TaskState::Dormant,
            final(self).spec_priorities() == old(self).spec_priorities(),
            final(self).spec_resources() == old(self).spec_resources(),
            final(self).spec_waiting() == old(self).spec_waiting(),
    {
        let is_running = match self.running {
            Some(x) => x == t,
            None => false,
        };
        if is_running || self.is_queued(t) || self.waiting[t].is_some() {
            return Err(SpawnError::QueueFull);
        }
        self.args.set(t, arg);
        let ghost q = self.ready@;
        let ghost q2 = q.push(t);
        self.ready.push(t);
        proof {
            lemma_push(q, t);
            assert(q2[q.len() as int] == t);
            lemma_same_eligibility(*self, *old(self));
            assert(self.spec_ready().no_duplicates());
            assert(forall|x: usize| #[trigger] self.spec_ready().contains(x) ==> x < self.num_tasks());
            assert forall|u: usize|
                u < self.num_tasks() && (#[trigger] self.spec_waiting()[u as int]) is Some implies !self.spec_ready().contains(u) by {
                assert(old(self).spec_waiting()[u as int] is Some);
            }
            assert(self.structure_wf());
        }
        match self.running {
            None => {
                let ghost mid = *self;
                self.dispatch_idle();
                proof {
                    lemma_same_eligibility(mid, *old(self));
                    assert(mid.spec_ready().contains(t));
                    if self.running is Some {
                        let b = choose|b: int|
                            old(self).first_best(q2, b) && self.running == Some(q2[b]) && self.ready@
                                == q2.remove(b);
                        if b < q.len() {
                            assert(q2[b] == q[b]);
                            assert(q.contains(q[b]));
                        }
                        assert(q2.remove(b) =~= q);
                    }
                    assert forall|u: int|
                        0 <= u < old(self).num_tasks() && old(self).task_state(u) != TaskState::Dormant implies #[trigger] self.task_state(u)
                            != TaskState::Dormant by {
                        if !old(self).spec_ready().contains(u as usize) {
                        } else if self.spec_running() == Some(u as usize) {
                        } else {
                            assert(self.spec_ready() =~= q || self.spec_ready() =~= q2);
                            if self.spec_ready() =~= q2 {
                                let k = choose|k: int| 0 <= k < q.len() && q[k] == u as usize;
                                assert(q2[k] == u as usize);
                            }
                        }
                    }
                    if self.spec_running() != Some(t) {
                        assert(self.spec_ready() == q2);
                    }
                    assert forall|u: usize|
                        u < old(self).num_tasks() && u != t && old(self).task_state(u as int) == TaskState::Dormant implies #[trigger] self.task_state(u as int)
                            == TaskState::Dormant by {
                        assert(!q.contains(u));
                        assert(!q2.contains(u));
                    }
                }
            },
            Some(r) => {
                self.reschedule();
                proof {
                    lemma_same_eligibility(*self, *old(self));
                    if !exists|b: int| self.gave_way(r, q2, b) {
                        assert(self.spec_ready().contains(t));
                    }
                    if exists|b: int| self.gave_way(r, q2, b) {
                        let b = choose|b: int| self.gave_way(r, q2, b);
                        if b < q.len() {
                            assert(q2[b] == q[b]);
                            assert(q.contains(q[b]));
                        }
                        assert(q2.remove(b) =~= q);
                        assert(self.spec_ready() =~= seq![r] + q);
                        lemma_push_front(q, r);
                    } else {
                        assert(self.spec_ready() == q2);
                    }
                    assert forall|u: int|
                        0 <= u < old(self).num_tasks() && old(self).task_state(u) != TaskState::Dormant implies #[trigger] self.task_state(u)
                            != TaskState::Dormant by {
                        if old(self).spec_ready().contains(u as usize) && self.spec_ready() == q2 {
                            let k = choose|k: int| 0 <= k < q.len() && q[k] == u as usize;
                            assert(q2[k] == u as usize);
                        }
                    }
                    assert forall|u: usize|
                        u < old(self).num_tasks() && u != t && old(self).task_state(u as int) == TaskState::Dormant implies #[trigger] self.task_state(u as int)
                            == TaskState::Dormant by {
                        assert(!q.contains(u));
                        assert(!q2.contains(u));
                        assert(!(seq![r] + q).contains(u));
                    }
                }
            },
        }
        Ok(())
    }

    /// The running task finishes and goes dormant; the next task is
    /// dispatched from the queue. A task releases what it holds before it
    /// finishes.
    pub fn complete(&mut self)
        requires
            old(self).wf(),
            old(self).spec_running() is Some,
            forall|i: int|
                0 <= i < old(self).spec_resources().len() ==> #[trigger] old(self).spec_resources()[i].holder != old(self).spec_running(),
        ensures
            final(self).wf(),
            final(self).spec_priorities() == old(self).spec_priorities(),
            final(self).spec_resources() == old(self).spec_resources(),
            final(self).spec_waiting() == old(self).spec_waiting(),
            final(self).spec_args() == old(self).spec_args(),
            final(self).task_state(old(self).spec_running()->0 as int) == TaskState::Dormant,
            final(self).spec_running() is None ==> final(self).spec_ready() == old(self).spec_ready(),
            final(self).spec_running() is None ==> forall|t: usize| #[trigger]
                old(self).spec_ready().contains(t) ==> !old(self).eligible(t as int),
            final(self).spec_running() is Some ==> exists|b: int|
                old(self).first_best(old(self).spec_ready(), b) && final(self).spec_running() == Some(
                    old(self).spec_ready()[b],
                ) && final(self).spec_ready() == old(self).spec_ready().remove(b),
    {
        let ghost r = self.running.unwrap();
        let ghost q = self.ready@;
        self.running = None;
        self.dispatch_idle();
        proof {
            if self.running is Some {
                let b = choose|b: int|
                    old(self).first_best(q, b) && self.running == Some(q[b]) && self.ready@ == q.remove(b);
                lemma_remove(q, b);
                assert(q.contains(q[b]));
            }
        }
    }

    /// The task that a release of `res` hands it to, if any waits for it.
    fn find_waiter(&self, res: usize) -> (r: Option<usize>)
        requires
            self.structure_wf(),
        ensures
            r is None ==> forall|t: int| 0 <= t < self.num_tasks() ==> #[trigger] self.spec_waiting()[t] != Some(res),
            r is Some ==> self.first_waiter(res, r->0 as int),
    {
        let mut best: Option<usize> = None;
        let mut i: usize = 0;
        while i < self.waiting.len()
            invariant
                self.structure_wf(),
                i <= self.num_tasks(),
                best is None ==> forall|t: int| 0 <= t < i ==> #[trigger] self.spec_waiting()[t] != Some(res),
                best is Some ==> {
                    let w = best->0 as int;
                    &&& w < i
                    &&& self.spec_waiting()[w] == Some(res)
                    &&& forall|t: int|
                        0 <= t < i && #[trigger] self.spec_waiting()[t] == Some(res) ==> self.prio(t) <= self.prio(w)
                    &&& forall|t: int|
                        0 <= t < w && #[trigger] self.spec_waiting()[t] == Some(res) ==> self.prio(t) < self.prio(w)
                },
            decreases self.num_tasks() - i,
        {
            if self.waiting[i] == Some(res) {
                match best {
                    None => {
                        best = Some(i);
                    },
                    Some(w) => {
                        if self.priorities[i] > self.priorities[w] {
                            best = Some(i);
                        }
                    },
                }
            }
            i = i + 1;
        }
        best
    }

    /// The running task asks for resource `res`. A free resource is granted
    /// at once. One held by another task can only be unprotected (the
    /// ceiling rule keeps the holder of a protected one from being
    /// preempted by any task that may lock it): the requester then waits for
    /// it, and the next task is dispatched. Requests respect the ceiling:
    /// a protected resource's ceiling is at least the requester's priority,
    /// and nested protected locks come in non-decreasing ceiling order.
    pub fn acquire(&mut self, res: usize) -> (out: LockOutcome)
        requires
            old(self).wf(),
            old(self).spec_running() is Some,
            res < old(self).spec_resources().len(),
            old(self).spec_resources()[res as int].holder != old(self).spec_running(),
            old(self).spec_resources()[res as int].protected ==> old(self).spec_resources()[res as int].ceiling
                >= old(self).prio(old(self).spec_running()->0 as int),
            forall|i: int|
                0 <= i < old(self).spec_resources().len() && (#[trigger] old(self).spec_resources()[i]).protected
                    && old(self).spec_resources()[i].holder == old(self).spec_running()
                    && old(self).spec_resources()[res as int].protected ==> old(self).spec_resources()[i].ceiling
                    <= old(self).spec_resources()[res as int].ceiling,
        ensures
            final(self).wf(),
            final(self).spec_priorities() == old(self).spec_priorities(),
            final(self).spec_args() == old(self).spec_args(),
            out == LockOutcome::Acquired <==> old(self).spec_resources()[res as int].holder is None,
            out == LockOutcome::Acquired ==> final(self).spec_resources() == old(self).spec_resources().update(
                res as int,
                Resource { holder: old(self).spec_running(), ..old(self).spec_resources()[res as int] },
            ) && final(self).spec_running() == old(self).spec_running() && final(self).spec_ready()
                == old(self).spec_ready() && final(self).spec_waiting() == old(self).spec_waiting(),
            out == LockOutcome::Blocked ==> !old(self).spec_resources()[res as int].protected
                && final(self).spec_resources() == old(self).spec_resources() && final(self).spec_waiting()
                == old(self).spec_waiting().update(old(self).spec_running()->0 as int, Some(res)),
            out == LockOutcome::Blocked && final(self).spec_running() is None ==> final(self).spec_ready()
                == old(self).spec_ready() && forall|t: usize| #[trigger]
                old(self).spec_ready().contains(t) ==> !old(self).eligible(t as int),
            out == LockOutcome::Blocked && final(self).spec_running() is Some ==> exists|b: int|
                old(self).first_best(old(self).spec_ready(), b) && final(self).spec_running() == Some(
                    old(self).spec_ready()[b],
                ) && final(self).spec_ready() == old(self).spec_ready().remove(b),
    {
        let r = self.running.unwrap();
        let cur = self.resources[res];
        match cur.holder {
            None => {
                self.resources.set(res, Resource { holder: Some(r), ..cur });
                proof {
                    assert forall|t: usize|
                        self.spec_ready().contains(t) && self.eligible(t as int) implies old(self).eligible(t as int) by {
                        assert forall|i: int| 0 <= i < old(self).spec_resources().len() implies !#[trigger] blocks(
                            old(self).spec_resources()[i],
                            t as int,
                            old(self).prio(t as int),
                        ) by {
                            if i != res {
                                assert(!blocks(self.spec_resources()[i], t as int, self.prio(t as int)));
                            }
                        }
                    }
                    assert forall|i: int| 0 <= i < self.spec_resources().len() implies !#[trigger] blocks(
                        self.spec_resources()[i],
                        r as int,
                        self.prio(r as int),
                    ) by {
                        if i != res {
                            assert(!blocks(old(self).spec_resources()[i], r as int, old(self).prio(r as int)));
                        }
                    }
                    assert forall|u: usize|
                        u < self.num_tasks() && (#[trigger] self.spec_waiting()[u as int]) is Some implies
                            self.spec_waiting()[u as int]->0 != res by {
                        assert(old(self).spec_waiting()[u as int] is Some);
                    }
                }
                LockOutcome::Acquired
            },
            Some(_) => {
                proof {
                    assert(!blocks(old(self).spec_resources()[res as int], r as int, old(self).prio(r as int)));
                }
                self.waiting.set(r, Some(res));
                self.running = None;
                let ghost mid = *self;
                proof {
                    assert forall|u: usize|
                        u < self.num_tasks() && (#[trigger] self.spec_waiting()[u as int]) is Some implies
                            !self.spec_ready().contains(u) && self.spec_running() != Some(u) by {
                        if u != r {
                            assert(old(self).spec_waiting()[u as int] is Some);
                        }
                    }
                    lemma_same_eligibility(mid, *old(self));
                }
                self.dispatch_idle();
                LockOutcome::Blocked
            },
        }
    }

    /// The running task gives back resource `res`. It goes to the waiting
    /// task `first_waiter` names, which becomes ready, or is left free when
    /// none waits; then the running task is preempted if a task now free to
    /// run has a strictly higher priority.
    pub fn release(&mut self, res: usize)
        requires
            old(self).wf(),
            old(self).spec_running() is Some,
            res < old(self).spec_resources().len(),
            old(self).spec_resources()[res as int].holder == old(self).spec_running(),
        ensures
            final(self).wf(),
            final(self).spec_priorities() == old(self).spec_priorities(),
            final(self).spec_args() == old(self).spec_args(),
            (forall|t: int| 0 <= t < old(self).num_tasks() ==> #[trigger] old(self).spec_waiting()[t] != Some(res))
                ==> final(self).spec_resources() == old(self).spec_resources().update(
                res as int,
                Resource { holder: None, ..old(self).spec_resources()[res as int] },
            ) && final(self).spec_waiting() == old(self).spec_waiting() && ((final(self).spec_running()
                == old(self).spec_running() && final(self).spec_ready() == old(self).spec_ready())
                || exists|b: int| #[trigger] final(self).gave_way(old(self).spec_running()->0, old(self).spec_ready(), b)),
            forall|w: int| old(self).first_waiter(res, w) ==> final(self).spec_resources() == old(self).spec_resources().update(
                res as int,
                Resource { holder: Some(w as usize), ..old(self).spec_resources()[res as int] },
            ) && final(self).spec_waiting() == old(self).spec_waiting().update(w, None) && ((final(self).spec_running()
                == old(self).spec_running() && final(self).spec_ready() == old(self).spec_ready().push(w as usize))
                || exists|b: int| #[trigger] final(self).gave_way(old(self).spec_running()->0, old(self).spec_ready().push(w as usize), b)),
    {
        let r = self.running.unwrap();
        let cur = self.resources[res];
        let ghost q = self.ready@;
        match self.find_waiter(res) {
            None => {
                self.resources.set(res, Resource { holder: None, ..cur });
                proof {
                    assert forall|u: usize|
                        u < self.num_tasks() && (#[trigger] self.spec_waiting()[u as int]) is Some implies
                            self.spec_waiting()[u as int]->0 != res by {
                        assert(old(self).spec_waiting()[u as int] is Some);
                    }
                    assert forall|i: int| 0 <= i < self.spec_resources().len() implies !#[trigger] blocks(
                        self.spec_resources()[i],
                        r as int,
                        self.prio(r as int),
                    ) by {
                        if i != res {
                            assert(!blocks(old(self).spec_resources()[i], r as int, old(self).prio(r as int)));
                        }
                    }
                }
                let ghost mid = *self;
                self.reschedule();
                proof {
                    lemma_same_eligibility(mid, *self);
                }
            },
            Some(w) => {
                proof {
                    assert(old(self).spec_waiting()[w as int] is Some);
                    assert(!cur.protected);
                }
                self.resources.set(res, Resource { holder: Some(w), ..cur });
                self.waiting.set(w, None);
                self.ready.push(w);
                proof {
                    lemma_push(q, w);
                    assert forall|u: usize|
                        u < self.num_tasks() && (#[trigger] self.spec_waiting()[u as int]) is Some implies {
                            let x = self.spec_waiting()[u as int]->0 as int;
                            &&& x < self.spec_resources().len()
                            &&& !self.spec_resources()[x].protected
                            &&& self.spec_resources()[x].holder is Some
                            &&& self.spec_resources()[x].holder->0 != u
                            &&& !self.spec_ready().contains(u)
                            &&& self.spec_running() != Some(u)
                        } by {
                        assert(u != w);
                        assert(old(self).spec_waiting()[u as int] is Some);
                    }
                    assert forall|i: int| 0 <= i < self.spec_resources().len() implies !#[trigger] blocks(
                        self.spec_resources()[i],
                        r as int,
                        self.prio(r as int),
                    ) by {
                        assert(!blocks(old(self).spec_resources()[i], r as int, old(self).prio(r as int)));
                    }
                    assert forall|i: int|
                        0 <= i < self.spec_resources().len() && (#[trigger] self.spec_resources()[i]).holder is Some
                            implies self.spec_resources()[i].holder->0 < self.num_tasks() by {
                        if i != res {
                            assert(old(self).spec_resources()[i] == self.spec_resources()[i]);
                        }
                    }
                }
                let ghost mid = *self;
                self.reschedule();
                proof {
                    lemma_same_eligibility(mid, *self);
                    assert(old(self).first_waiter(res, w as int));
                    assert forall|w2: int| old(self).first_waiter(res, w2) implies w2 == w by {
                        if w2 < w {
                            assert(old(self).prio(w2) < old(self).prio(w as int));
                        } else if w2 > w {
                            assert(old(self).prio(w as int) < old(self).prio(w2));
                        }
                    }
                }
            },
        }
    }

    /// The payload of `res`, read by its holder.
    pub fn read_data(&self, res: usize) -> (v: u32)
        requires
            res < self.spec_resources().len(),
            self.spec_running() is Some,
            self.spec_resources()[res as int].holder == self.spec_running(),
        ensures
            v == self.spec_resources()[res as int].data,
    {
        self.resources[res].data
    }

    /// Stores `v` as the payload of `res`; only its holder, while running, may.
    pub fn write_data(&mut self, res: usize, v: u32)
        requires
            old(self).wf(),
            res < old(self).spec_resources().len(),
            old(self).spec_running() is Some,
            old(self).spec_resources()[res as int].holder == old(self).spec_running(),
        ensures
            final(self).wf(),
            final(self).spec_resources() == old(self).spec_resources().update(
                res as int,
                Resource { data: v, ..old(self).spec_resources()[res as int] },
            ),
            final(self).spec_priorities() == old(self).spec_priorities(),
            final(self).spec_ready() == old(self).spec_ready(),
            final(self).spec_running() == old(self).spec_running(),
            final(self).spec_waiting() == old(self).spec_waiting(),
            final(self).spec_args() == old(self).spec_args(),
    {
        let cur = self.resources[res];
        self.resources.set(res, Resource { data: v, ..cur });
        proof {
            assert forall|t: int| self.eligible(t) == old(self).eligible(t) by {
                if self.eligible(t) {
                    assert forall|i: int| 0 <= i < old(self).spec_resources().len() implies !#[trigger] blocks(
                        old(self).spec_resources()[i],
                        t,
                        old(self).prio(t),
                    ) by {
                        assert(!blocks(self.spec_resources()[i], t, self.prio(t)));
                    }
                }
                if old(self).eligible(t) {
                    assert forall|i: int| 0 <= i < self.spec_resources().len() implies !#[trigger] blocks(
                        self.spec_resources()[i],
                        t,
                        self.prio(t),
                    ) by {
                        assert(!blocks(old(self).spec_resources()[i], t, old(self).prio(t)));
                    }
                }
            }
            assert forall|i: int|
                0 <= i < self.spec_resources().len() && (#[trigger] self.spec_resources()[i]).holder is Some
                    implies self.spec_resources()[i].holder->0 < self.num_tasks() by {
                if i != res {
                    assert(old(self).spec_resources()[i] == self.spec_resources()[i]);
                }
            }
        }
    }

    /// Whether `t` may be dispatched under the held resources' ceilings.
    pub fn is_eligible(&self, t: usize) -> (r: bool)
        requires
            t < self.num_tasks(),
        ensures
            r == self.eligible(t as int),
    {
        let p = self.priorities[t];
        let mut i: usize = 0;
        while i < self.resources.len()
            invariant
                t < self.num_tasks(),
                p == self.prio(t as int),
                i <= self.resources@.len(),
                forall|k: int| 0 <= k < i ==> !#[trigger] blocks(self.spec_resources()[k], t as int, p as int),
            decreases self.resources@.len() - i,
        {
            let r = self.resources[i];
            if r.protected && p <= r.ceiling {
                match r.holder {
                    Some(h) => {
                        if h != t {
                            assert(blocks(self.spec_resources()[i as int], t as int, p as int));
                            return false;
                        }
                    },
                    None => {},
                }
            }
            i = i + 1;
        }
        true
    }
}

/// In every well-formed state, a Ready task never outranks the running one,
/// and with nothing running no task is Ready.
pub proof fn lemma_ready_never_outranks_running(s: Scheduler, t: usize)
    requires
        s.wf(),
        t < s.num_tasks(),
        s.task_state(t as int) == TaskState::Ready,
    ensures
        s.spec_running() is Some,
        s.prio(t as int) <= s.prio(s.spec_running()->0 as int),
{
    assert(s.spec_ready().contains(t));
}

/// While a protected resource with ceiling `C` is held by task `h`, the
/// running task is `h` or has a priority above `C`, and no other task of
/// priority at most `C` is Ready: the holder is never passed over by a task
/// that could contend for the resource, so a higher task waits for at most
/// the holder's one critical section.
pub proof fn lemma_ceiling_blocks_contenders(s: Scheduler, i: int, t: usize)
    requires
        s.wf(),
        0 <= i < s.spec_resources().len(),
        s.spec_resources()[i].protected,
        s.spec_resources()[i].holder is Some,
        t < s.num_tasks(),
        t != s.spec_resources()[i].holder->0,
        s.prio(t as int) <= s.spec_resources()[i].ceiling,
    ensures
        s.task_state(t as int) != TaskState::Ready,
        s.task_state(t as int) != TaskState::Running,
        s.spec_running() is Some ==> s.spec_running()->0 == s.spec_resources()[i].holder->0
            || s.prio(s.spec_running()->0 as int) > s.spec_resources()[i].ceiling,
{
    assert(blocks(s.spec_resources()[i], t as int, s.prio(t as int)));
    if s.spec_running() is Some {
        let r = s.spec_running()->0 as int;
        assert(!blocks(s.spec_resources()[i], r, s.prio(r)));
    }
}

/// With an unprotected resource held by the running task `h`, a dormant task
/// `t` of higher priority that no protected resource keeps back preempts
/// `h` when spawned, although `h` still holds the resource: a task that never
/// uses it can prolong the wait of every task queued behind it.
pub proof fn lemma_unprotected_holder_is_preempted(s: Scheduler, i: int, t: usize, arg: u32, post: Scheduler)
    requires
        s.wf(),
        0 <= i < s.spec_resources().len(),
        !s.spec_resources()[i].protected,
        s.spec_running() is Some,
        s.spec_resources()[i].holder == s.spec_running(),
        t < s.num_tasks(),
        s.task_state(t as int) == TaskState::Dormant,
        s.eligible(t as int),
        s.prio(t as int) > s.prio(s.spec_running()->0 as int),
        s.spawn_step(t, arg, post),
    ensures
        post.spec_running() == Some(t),
        post.spec_ready()[0] == s.spec_running()->0,
        post.spec_resources()[i].holder == s.spec_running(),
{
}

/// With a protected resource of ceiling `C` held by the running task `h`,
/// spawning any other dormant task of priority at most `C` leaves `h`
/// running: no contender, nor any task between `h` and the ceiling, can
/// preempt the holder inside its critical section.
pub proof fn lemma_protected_holder_keeps_running(s: Scheduler, i: int, t: usize, arg: u32, post: Scheduler)
    requires
        s.wf(),
        0 <= i < s.spec_resources().len(),
        s.spec_resources()[i].protected,
        s.spec_running() is Some,
        s.spec_resources()[i].holder == s.spec_running(),
        t < s.num_tasks(),
        t != s.spec_running()->0,
        s.prio(t as int) <= s.spec_resources()[i].ceiling,
        s.task_state(t as int) == TaskState::Dormant,
        s.spawn_step(t, arg, post),
    ensures
        post.spec_running() == s.spec_running(),
        post.spec_ready() == s.spec_ready().push(t),
        post.task_state(t as int) == TaskState::Blocked,
{
    assert(blocks(s.spec_resources()[i], t as int, s.prio(t as int)));
    assert(post.spec_ready()[s.spec_ready().len() as int] == t);
    assert(post.spec_ready().contains(t));
    assert(!post.eligible(t as int)) by {
        assert(blocks(post.spec_resources()[i], t as int, post.prio(t as int)));
    }
}

/// Eligibility depends on the priorities and the resources alone.
proof fn lemma_same_eligibility(a: Scheduler, b: Scheduler)
    requires
        a.spec_resources() == b.spec_resources(),
        a.spec_priorities() == b.spec_priorities(),
    ensures
        forall|t: int| a.eligible(t) == b.eligible(t),
{
    assert forall|t: int| a.eligible(t) == b.eligible(t) by {
        if a.eligible(t) {
            assert forall|i: int| 0 <= i < b.spec_resources().len() implies !#[trigger] blocks(
                b.spec_resources()[i],
                t,
                b.prio(t),
            ) by {
                assert(!blocks(a.spec_resources()[i], t, a.prio(t)));
            }
        }
        if b.eligible(t) {
            assert forall|i: int| 0 <= i < a.spec_resources().len() implies !#[trigger] blocks(
                a.spec_resources()[i],
                t,
                a.prio(t),
            ) by {
                assert(!blocks(b.spec_resources()[i], t, b.prio(t)));
            }
        }
    }
}

proof fn lemma_remove(s: Seq<usize>, b: int)
    requires
        s.no_duplicates(),
        0 <= b < s.len(),
    ensures
        s.remove(b).no_duplicates(),
        forall|x: usize| #[trigger] s.remove(b).contains(x) <==> (s.contains(x) && x != s[b]),
{
    let r = s.remove(b);
    assert forall|x: usize| #[trigger] r.contains(x) <==> (s.contains(x) && x != s[b]) by {
        if r.contains(x) {
            let i = choose|i: int| 0 <= i < r.len() && r[i] == x;
            if i < b {
                assert(s[i] == x);
            } else {
                assert(s[i + 1] == x);
            }
        }
        if s.contains(x) && x != s[b] {
            let i = choose|i: int| 0 <= i < s.len() && s[i] == x;
            if i < b {
                assert(r[i] == x);
            } else {
                assert(r[i - 1] == x);
            }
        }
    }
}

proof fn lemma_push_front(s: Seq<usize>, x: usize)
    requires
        s.no_duplicates(),
        !s.contains(x),
    ensures
        (seq![x] + s).no_duplicates(),
        forall|y: usize| #[trigger] (seq![x] + s).contains(y) <==> (s.contains(y) || y == x),
{
    let r = seq![x] + s;
    assert forall|y: usize| #[trigger] r.contains(y) <==> (s.contains(y) || y == x) by {
        if r.contains(y) {
            let i = choose|i: int| 0 <= i < r.len() && r[i] == y;
            if i > 0 {
                assert(s[i - 1] == y);
            }
        }
        if s.contains(y) {
            let i = choose|i: int| 0 <= i < s.len() && s[i] == y;
            assert(r[i + 1] == y);
        }
        if y == x {
            assert(r[0] == y);
        }
    }
    assert forall|i: int, j: int| 0 <= i < r.len() && 0 <= j < r.len() && i != j implies r[i] != r[j] by {
        if i > 0 && j > 0 {
            assert(r[i] == s[i - 1]);
            assert(r[j] == s[j - 1]);
        } else if i == 0 {
            assert(s[j - 1] == r[j]);
        } else {
            assert(s[i - 1] == r[i]);
        }
    }
}

proof fn lemma_push(s: Seq<usize>, x: usize)
    requires
        s.no_duplicates(),
        !s.contains(x),
    ensures
        s.push(x).no_duplicates(),
        forall|y: usize| #[trigger] s.push(x).contains(y) <==> (s.contains(y) || y == x),
{
    let r = s.push(x);
    assert forall|y: usize| #[trigger] r.contains(y) <==> (s.contains(y) || y == x) by {
        if r.contains(y) {
            let i = choose|i: int| 0 <= i < r.len() && r[i] == y;
            if i < s.len() {
                assert(s[i] == y);
            }
        }
        if s.contains(y) {
            let i = choose|i: int| 0 <= i < s.len() && s[i] == y;
            assert(r[i] == y);
        }
        if y == x {
            assert(r[s.len() as int] == y);
        }
    }
    assert forall|i: int, j: int| 0 <= i < r.len() && 0 <= j < r.len() && i != j implies r[i] != r[j] by {
        if i < s.len() && j < s.len() {
        } else if i == s.len() {
            assert(s.contains(r[j]));
        } else {
            assert(s.contains(r[i]));
        }
    }
}

} // verus!
