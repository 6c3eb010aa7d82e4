use vstd::prelude::*;

verus! {

/// Number of timer slots, fixed at boot.
pub const NUM_TIMERS: usize = 4;

/// Half the range of the tick counter: a deadline at most this far behind
/// `now` (modulo the counter width) counts as reached.
pub const HALF_RANGE: u32 = 0x8000_0000;

/// One software timer slot.
#[derive(Clone, Copy, Debug, PartialEq, Eq, Structural)]
pub struct VirtualTimer {
    /// Absolute tick count at which the slot fires.
    pub deadline: u32,
    /// Ticks between fires; 0 makes the slot one-shot.
    pub period: u32,
    pub active: bool,
    /// Task spawned when the slot fires.
    pub callback_id: u8,
}

/// `a + b` modulo 2^32.
pub open spec fn wrap_add(a: u32, b: u32) -> u32 {
    if a + b < 0x1_0000_0000 {
        (a + b) as u32
    } else {
        (a + b - 0x1_0000_0000) as u32
    }
}

/// Ticks from `from` forward to `to`, modulo 2^32.
pub open spec fn wrap_dist(from: u32, to: u32) -> int {
    if to >= from {
        to - from
    } else {
        to - from + 0x1_0000_0000
    }
}

/// Wrap-safe `deadline <= now`: the deadline lies less than half the
/// counter range behind `now`.
pub open spec fn is_due(now: u32, deadline: u32) -> bool {
    wrap_dist(deadline, now) < HALF_RANGE
}

/// Whether slot `t` fires on the tick that brings the counter to `now`.
pub open spec fn fires(t: VirtualTimer, now: u32) -> bool {
    t.active && is_due(now, t.deadline)
}

/// Slot `t` after the tick that brings the counter to `now`.
pub open spec fn after_tick(t: VirtualTimer, now: u32) -> VirtualTimer {
    if fires(t, now) {
        if t.period != 0 {
            VirtualTimer { deadline: wrap_add(now, t.period), ..t }
        } else {
            VirtualTimer { active: false, ..t }
        }
    } else {
        t
    }
}

/// Indices among the first `k` slots that fire at `now`, in slot order.
pub open spec fn fired_slots(ts: Seq<VirtualTimer>, now: u32, k: nat) -> Seq<usize>
    decreases k,
{
    if k == 0 {
        Seq::<usize>::empty()
    } else {
        let p = fired_slots(ts, now, (k - 1) as nat);
        if fires(ts[k - 1], now) {
            p.push((k - 1) as usize)
        } else {
            p
        }
    }
}

/// Slot `t` after `k` ticks, the counter starting at `n`.
pub open spec fn run_ticks(t: VirtualTimer, n: u32, k: u32) -> VirtualTimer
    decreases k,
{
    if k == 0 {
        t
    } else {
        after_tick(run_ticks(t, n, (k - 1) as u32), wrap_add(n, k))
    }
}

/// Whether slot `t` fires on the `j`-th tick, the counter starting at `n`.
pub open spec fn fires_on_tick(t: VirtualTimer, n: u32, j: u32) -> bool {
    j >= 1 && fires(run_ticks(t, n, (j - 1) as u32), wrap_add(n, j))
}

proof fn lemma_quiet_before_deadline(t: VirtualTimer, n: u32, d: u32, k: u32)
    requires
        t.active,
        0 < d < HALF_RANGE,
        t.deadline == wrap_add(n, d),
        k < d,
    ensures
        run_ticks(t, n, k) == t,
        k >= 1 ==> !fires_on_tick(t, n, k),
    decreases k,
{
    if k > 0 {
        lemma_quiet_before_deadline(t, n, d, (k - 1) as u32);
        assert(!is_due(wrap_add(n, k), t.deadline));
    }
}

proof fn lemma_stays_inactive(t: VirtualTimer, n: u32, d: u32, k: u32)
    requires
        !run_ticks(t, n, d).active,
        d <= k,
    ensures
        !run_ticks(t, n, k).active,
    decreases k - d,
{
    if k > d {
        lemma_stays_inactive(t, n, d, (k - 1) as u32);
    }
}

/// A slot armed at counter value `n` with period `p` (`0 < p` and `p` below
/// half the counter range) stays silent for the next `p - 1` ticks, fires on
/// the `p`-th, which is `n + p` modulo the counter width, and is then armed
/// again for `p` ticks later. This holds for every `n`, also where `n + p`
/// wraps past the counter's maximum.
pub proof fn lemma_periodic_timer_fires_once_per_period(t: VirtualTimer, n: u32)
    requires
        t.active,
        0 < t.period < HALF_RANGE,
        t.deadline == wrap_add(n, t.period),
    ensures
        forall|j: u32| 1 <= j < t.period ==> !fires_on_tick(t, n, j),
        fires_on_tick(t, n, t.period),
        wrap_add(n, t.period) == t.deadline,
        run_ticks(t, n, t.period) == (VirtualTimer {
            deadline: wrap_add(t.deadline, t.period),
            ..t
        }),
{
    assert forall|j: u32| 1 <= j < t.period implies !fires_on_tick(t, n, j) by {
        lemma_quiet_before_deadline(t, n, t.period, j);
    }
    lemma_quiet_before_deadline(t, n, t.period, (t.period - 1) as u32);
}

/// A one-shot slot armed at counter value `n` to fire `d` ticks later
/// (`0 < d` and `d` below half the counter range) stays silent for the next
/// `d - 1` ticks, fires on the `d`-th, which is `n + d` modulo the counter
/// width, and never again: it is then inactive. This holds for every `n`,
/// also where `n + d` wraps past the counter's maximum.
pub proof fn lemma_one_shot_timer_fires_once(t: VirtualTimer, n: u32, d: u32)
    requires
        t.active,
        t.period == 0,
        0 < d < HALF_RANGE,
        t.deadline == wrap_add(n, d),
    ensures
        forall|j: u32| 1 <= j < d ==> !fires_on_tick(t, n, j),
        fires_on_tick(t, n, d),
        forall|j: u32| d < j ==> !fires_on_tick(t, n, j),
        !run_ticks(t, n, d).active,
{
    assert forall|j: u32| 1 <= j < d implies !fires_on_tick(t, n, j) by {
        lemma_quiet_before_deadline(t, n, d, j);
    }
    lemma_quiet_before_deadline(t, n, d, (d - 1) as u32);
    assert forall|j: u32| d < j implies !fires_on_tick(t, n, j) by {
        lemma_stays_inactive(t, n, d, (j - 1) as u32);
    }
}


/// The fixed table of timer slots, driven by one monotonic tick counter.
pub struct TimerWheel {
    timers: Vec<VirtualTimer>,
    now: u32,
}

impl TimerWheel {
    pub closed spec fn spec_slots(&self) -> Seq<VirtualTimer> {
        self.timers@
    }

    pub closed spec fn spec_now(&self) -> u32 {
        self.now
    }

    pub open spec fn wf(&self) -> bool {
        self.spec_slots().len() == NUM_TIMERS
    }

    /// An idle table whose counter starts at `start`; slot `i` calls back
    /// task `i`.
    pub fn new_at(start: u32) -> (r: TimerWheel)
        ensures
            r.wf(),
            r.spec_now() == start,
            forall|i: int|
                0 <= i < NUM_TIMERS ==> r.spec_slots()[i] == (VirtualTimer {
                    deadline: 0,
                    period: 0,
                    active: false,
                    callback_id: i as u8,
                }),
    {
        let mut timers: Vec<VirtualTimer> = Vec::new();
        let mut i: usize = 0;
        while i < NUM_TIMERS
            invariant
                i <= NUM_TIMERS,
                timers@.len() == i,
                forall|k: int|
                    0 <= k < i ==> timers@[k] == (VirtualTimer {
                        deadline: 0,
                        period: 0,
                        active: false,
                        callback_id: k as u8,
                    }),
            decreases NUM_TIMERS - i,
        {
            timers.push(VirtualTimer { deadline: 0, period: 0, active: false, callback_id: i as u8 });
            i = i + 1;
        }
        TimerWheel { timers, now: start }
    }

    /// An idle table whose counter starts at zero.
    pub fn new() -> (r: TimerWheel)
        ensures
            r.wf(),
            r.spec_now() == 0,
            forall|i: int|
                0 <= i < NUM_TIMERS ==> r.spec_slots()[i] == (VirtualTimer {
                    deadline: 0,
                    period: 0,
                    active: false,
                    callback_id: i as u8,
                }),
    {
        TimerWheel::new_at(0)
    }

    /// The current tick count.
    pub fn now(&self) -> (r: u32)
        ensures
            r == self.spec_now(),
    {
        self.now
    }

    /// A copy of slot `slot`.
    pub fn slot(&self, slot: usize) -> (r: VirtualTimer)
        requires
            self.wf(),
            slot < NUM_TIMERS,
        ensures
            r == self.spec_slots()[slot as int],
    {
        self.timers[slot]
    }

    /// Arms `slot` to fire `delay` ticks from now, then every `period` ticks
    /// (never again if `period` is 0), spawning `callback_id`. Overwrites
    /// whatever the slot held. Both spans stay below half the counter range,
    /// the horizon of the wrap-safe deadline comparison.
    pub fn arm(&mut self, slot: usize, delay: u32, period: u32, callback_id: u8)
        requires
            old(self).wf(),
            slot < NUM_TIMERS,
            delay < HALF_RANGE,
            period < HALF_RANGE,
        ensures
            final(self).wf(),
            final(self).spec_now() == old(self).spec_now(),
            final(self).spec_slots() == old(self).spec_slots().update(
                slot as int,
                VirtualTimer {
                    deadline: wrap_add(old(self).spec_now(), delay),
                    period,
                    active: true,
                    callback_id,
                },
            ),
    {
        let deadline = self.now.wrapping_add(delay);
        self.timers.set(slot, VirtualTimer { deadline, period, active: true, callback_id });
    }

    /// Arms `slot` as a periodic timer: first fire `period` ticks from now.
    /// Re-arming an active slot replaces its deadline and period.
    pub fn start_timer(&mut self, slot: usize, period: u32)
        requires
            old(self).wf(),
            slot < NUM_TIMERS,
            period < HALF_RANGE,
        ensures
            final(self).wf(),
            final(self).spec_now() == old(self).spec_now(),
            final(self).spec_slots() == old(self).spec_slots().update(
                slot as int,
                VirtualTimer {
                    deadline: wrap_add(old(self).spec_now(), period),
                    period,
                    active: true,
                    callback_id: old(self).spec_slots()[slot as int].callback_id,
                },
            ),
    {
        let callback_id = self.timers[slot].callback_id;
        self.arm(slot, period, period, callback_id);
    }

    /// Deactivates `slot`; no later tick fires it.
    pub fn cancel_timer(&mut self, slot: usize)
        requires
            old(self).wf(),
            slot < NUM_TIMERS,
        ensures
            final(self).wf(),
            final(self).spec_now() == old(self).spec_now(),
            final(self).spec_slots() == old(self).spec_slots().update(
                slot as int,
                VirtualTimer { active: false, ..old(self).spec_slots()[slot as int] },
            ),
    {
        let t = self.timers[slot];
        self.timers.set(slot, VirtualTimer { active: false, ..t });
    }

    /// Whether some slot is inactive; the first such slot.
    pub fn free_slot(&self) -> (r: Option<usize>)
        requires
            self.wf(),
        ensures
            r is None ==> forall|i: int| 0 <= i < NUM_TIMERS ==> self.spec_slots()[i].active,
            r is Some ==> r->0 < NUM_TIMERS && !self.spec_slots()[r->0 as int].active
                && forall|i: int| 0 <= i < r->0 ==> self.spec_slots()[i].active,
    {
        let mut i: usize = 0;
        while i < NUM_TIMERS
            invariant
                self.wf(),
                i <= NUM_TIMERS,
                forall|k: int| 0 <= k < i ==> self.spec_slots()[k].active,
            decreases NUM_TIMERS - i,
        {
            if !self.timers[i].active {
                return Some(i);
            }
            i = i + 1;
        }
        None
    }

    /// Advances the counter by one (wrapping) and scans every slot: each
    /// active slot whose deadline is reached fires, and is re-armed
    /// `period` ticks after now, or deactivated when one-shot. Returns the
    /// slots that fired, in slot order.
    pub fn tick(&mut self) -> (fired: Vec<usize>)
        requires
            old(self).wf(),
        ensures
            final(self).wf(),
            final(self).spec_now() == wrap_add(old(self).spec_now(), 1),
            forall|i: int|
                0 <= i < NUM_TIMERS ==> final(self).spec_slots()[i] == after_tick(
                    old(self).spec_slots()[i],
                    final(self).spec_now(),
                ),
            fired@ == fired_slots(old(self).spec_slots(), final(self).spec_now(), NUM_TIMERS as nat),
    {
        self.now = self.now.wrapping_add(1);
        let now = self.now;
        let ghost start = self.timers@;
        let mut fired: Vec<usize> = Vec::new();
        let mut i: usize = 0;
        while i < NUM_TIMERS
            invariant
                i <= NUM_TIMERS,
                self.now == now,
                self.timers@.len() == NUM_TIMERS,
                start.len() == NUM_TIMERS,
                forall|k: int| 0 <= k < i ==> self.timers@[k] == after_tick(start[k], now),
                forall|k: int| i <= k < NUM_TIMERS ==> self.timers@[k] == start[k],
                fired@ == fired_slots(start, now, i as nat),
            decreases NUM_TIMERS - i,
        {
            let t = self.timers[i];
            if t.active && now.wrapping_sub(t.deadline) < HALF_RANGE {
                fired.push(i);
                if t.period != 0 {
                    let deadline = now.wrapping_add(t.period);
                    self.timers.set(i, VirtualTimer { deadline, ..t });
                } else {
                    self.timers.set(i, VirtualTimer { active: false, ..t });
                }
            }
            i = i + 1;
        }
        fired
    }
}

} // verus!
