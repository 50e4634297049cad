use vstd::arithmetic::div_mod::{lemma_div_is_ordered, lemma_div_multiples_vanish};
use vstd::prelude::*;

verus! {

/// Time granularity of a fade: a fade of `d` milliseconds takes at most
/// `d / STEP_MS` steps.
pub const STEP_MS: u64 = 100;

/// Brightness of a channel at full output; the default target of a dimmer.
pub const FULL: u8 = 255;

/// The level reached after `k` of `n` equal steps from `start` towards
/// `target`; the amount moved is rounded towards `start`.
pub open spec fn level_at(start: u8, target: u8, n: nat, k: nat) -> int {
    if n == 0 {
        start as int
    } else if start <= target {
        start + ((target - start) * k as int) / (n as int)
    } else {
        start - ((start - target) * k as int) / (n as int)
    }
}

/// The number of steps of a fade that moves a channel by `delta` in
/// `duration_ms` milliseconds: one per granule of time, never more than one
/// per unit of brightness, and at least one unless there is nothing to do.
pub open spec fn step_count(delta: nat, duration_ms: nat) -> nat {
    if duration_ms == 0 || delta == 0 {
        0
    } else if duration_ms / (STEP_MS as nat) == 0 {
        1
    } else if duration_ms / (STEP_MS as nat) < delta {
        duration_ms / (STEP_MS as nat)
    } else {
        delta
    }
}

/// The sleep between two steps of such a fade; a fade without steps
/// reports the whole duration.
pub open spec fn step_interval(delta: nat, duration_ms: nat) -> nat {
    if step_count(delta, duration_ms) == 0 {
        duration_ms
    } else {
        duration_ms / step_count(delta, duration_ms)
    }
}

pub open spec fn distance(a: u8, b: u8) -> nat {
    if a <= b {
        (b - a) as nat
    } else {
        (a - b) as nat
    }
}

/// A single-channel brightness controller over one fixture, with the state
/// of its fade: the level it started from, the number of steps of the fade
/// and how many of them have been taken.
#[derive(Clone, Copy, Debug, PartialEq, Eq)]
pub struct Dimmer {
    /// Index of the fixture in the universe that owns this dimmer.
    pub fixture: usize,
    /// Offset of the controlled channel within the fixture.
    pub channel: u16,
    pub target: u8,
    pub start: u8,
    pub steps: u64,
    pub taken: u64,
}

/// A dimmer that has not faded yet, aiming at full brightness.
pub open spec fn idle_dimmer(fixture: usize, channel: u16) -> Dimmer {
    Dimmer { fixture, channel, target: FULL, start: 0, steps: 0, taken: 0 }
}

impl Dimmer {
    pub open spec fn wf(&self) -> bool {
        &&& self.taken <= self.steps
        &&& self.steps <= 255
    }

    /// Whether the fade has steps left to take.
    pub open spec fn fading(&self) -> bool {
        self.taken < self.steps
    }

    /// The level written by the step that follows, when `fading()`.
    pub open spec fn next_level(&self) -> u8 {
        level_at(self.start, self.target, self.steps as nat, (self.taken + 1) as nat) as u8
    }

    /// The state after one call of `fade_step`.
    pub open spec fn stepped(&self) -> Dimmer {
        if self.fading() {
            Dimmer { taken: (self.taken + 1) as u64, ..*self }
        } else {
            *self
        }
    }

    /// An idle dimmer over channel `channel` of fixture `fixture`, aiming at
    /// full brightness.
    pub fn new(fixture: usize, channel: u16) -> (r: Dimmer)
        ensures
            r == idle_dimmer(fixture, channel),
            r.wf(),
    {
        Dimmer { fixture, channel, target: FULL, start: 0, steps: 0, taken: 0 }
    }

    /// Prepares a fade from level `current` to the target over `duration_ms`
    /// milliseconds and returns the sleep between two of its steps.
    pub fn fade_in(&mut self, current: u8, duration_ms: u64) -> (interval: u64)
        ensures
            final(self).wf(),
            final(self).fixture == old(self).fixture,
            final(self).channel == old(self).channel,
            final(self).target == old(self).target,
            final(self).start == current,
            final(self).taken == 0,
            final(self).steps == step_count(distance(current, old(self).target), duration_ms as nat),
            interval == step_interval(distance(current, old(self).target), duration_ms as nat),
            interval <= duration_ms,
    {
        let delta: u64 = if current <= self.target {
            (self.target - current) as u64
        } else {
            (current - self.target) as u64
        };
        let steps: u64 = if duration_ms == 0 || delta == 0 {
            0
        } else if duration_ms / STEP_MS == 0 {
            1
        } else if duration_ms / STEP_MS < delta {
            duration_ms / STEP_MS
        } else {
            delta
        };
        self.start = current;
        self.steps = steps;
        self.taken = 0;
        if steps == 0 {
            duration_ms
        } else {
            proof {
                lemma_div_is_ordered(duration_ms as int, duration_ms as int, steps as int);
                assert(duration_ms as int / steps as int <= duration_ms as int / 1int) by {
                    vstd::arithmetic::div_mod::lemma_div_is_ordered_by_denominator(
                        duration_ms as int,
                        1,
                        steps as int,
                    );
                }
            }
            duration_ms / steps
        }
    }

    /// Takes one step of the fade: returns the level that the channel must
    /// now hold, or `None` when the fade is already complete.
    pub fn fade_step(&mut self) -> (r: Option<u8>)
        requires
            old(self).wf(),
        ensures
            *final(self) == old(self).stepped(),
            final(self).wf(),
            r == (if old(self).fading() { Some(old(self).next_level()) } else { None::<u8> }),
    {
        if self.taken < self.steps {
            let k = self.taken + 1;
            let n = self.steps;
            let level: u8 = if self.start <= self.target {
                let d = (self.target - self.start) as u64;
                let moved = scaled(d, k, n);
                self.start + moved as u8
            } else {
                let d = (self.start - self.target) as u64;
                let moved = scaled(d, k, n);
                self.start - moved as u8
            };
            self.taken = k;
            Some(level)
        } else {
            None
        }
    }
}

/// `d * k / n`, the part of a distance `d` covered after `k` of `n` steps.
fn scaled(d: u64, k: u64, n: u64) -> (r: u64)
    requires
        d <= 255,
        0 < n <= 255,
        k <= n,
    ensures
        r as int == (d as int * k as int) / (n as int),
        r <= d,
{
    proof {
        lemma_part_within(d as int, k as int, n as int);
        assert(d * k <= 255 * 255) by (nonlinear_arith)
            requires d <= 255, k <= 255;
    }
    (d * k) / n
}

/// The part of a distance covered after `k` of `n` steps lies within the
/// distance, and all of it is covered after `n` steps.
proof fn lemma_part_within(d: int, k: int, n: int)
    requires
        0 <= d,
        0 <= k <= n,
        0 < n,
    ensures
        0 <= (d * k) / n <= d,
        (d * n) / n == d,
{
    assert(0 <= d * k <= d * n) by (nonlinear_arith)
        requires 0 <= d, 0 <= k <= n;
    lemma_div_is_ordered(d * k, d * n, n);
    vstd::arithmetic::div_mod::lemma_div_pos_is_pos(d * k, n);
    assert(d * n == n * d) by (nonlinear_arith);
    lemma_div_multiples_vanish(d, n);
}

/// Every level of a fade lies between its start and its target.
pub proof fn lemma_level_between(start: u8, target: u8, n: nat, k: nat)
    requires
        k <= n,
    ensures
        start <= target ==> start <= level_at(start, target, n, k) <= target,
        target < start ==> target <= level_at(start, target, n, k) <= start,
{
    if n > 0 {
        lemma_part_within(distance(start, target) as int, k as int, n as int);
    }
}

/// A fade of `n` steps ends exactly on its target.
pub proof fn lemma_level_final(start: u8, target: u8, n: nat)
    requires
        n > 0,
    ensures
        level_at(start, target, n, n) == target,
{
    lemma_part_within(distance(start, target) as int, n as int, n as int);
}

/// The levels of a fade move monotonically from its start towards its target.
pub proof fn lemma_level_monotone(start: u8, target: u8, n: nat, j: nat, k: nat)
    requires
        j <= k,
    ensures
        start <= target ==> level_at(start, target, n, j) <= level_at(start, target, n, k),
        target < start ==> level_at(start, target, n, k) <= level_at(start, target, n, j),
{
    if n > 0 {
        let d: int = distance(start, target) as int;
        assert(d * j <= d * k) by (nonlinear_arith)
            requires j <= k, d >= 0;
        lemma_div_is_ordered(d * j, d * k, n as int);
    }
}

/// `d` after `k` calls of `fade_step`.
pub open spec fn after_steps(d: Dimmer, k: nat) -> Dimmer
    decreases k,
{
    if k == 0 {
        d
    } else {
        after_steps(d, (k - 1) as nat).stepped()
    }
}

/// A fade of `n` steps, stepped from its beginning, takes a step on each of
/// the first `n` calls of `fade_step`, writing levels that move
/// monotonically towards the target and end exactly on it; every later call
/// takes no step and changes nothing.
pub proof fn lemma_fade_converges(d: Dimmer, extra: nat)
    requires
        d.wf(),
        d.taken == 0,
    ensures
        forall|k: nat|
            k < d.steps ==> (#[trigger] after_steps(d, k)).fading() && after_steps(d, k).next_level()
                == level_at(d.start, d.target, d.steps as nat, k + 1),
        forall|j: nat, k: nat|
            j <= k <= d.steps && d.start <= d.target ==> #[trigger] level_at(
                d.start,
                d.target,
                d.steps as nat,
                j,
            ) <= #[trigger] level_at(d.start, d.target, d.steps as nat, k),
        forall|j: nat, k: nat|
            j <= k <= d.steps && d.target < d.start ==> #[trigger] level_at(
                d.start,
                d.target,
                d.steps as nat,
                k,
            ) <= #[trigger] level_at(d.start, d.target, d.steps as nat, j),
        d.steps > 0 ==> level_at(d.start, d.target, d.steps as nat, d.steps as nat) == d.target,
        !after_steps(d, d.steps as nat).fading(),
        after_steps(d, d.steps as nat + extra) == after_steps(d, d.steps as nat),
{
    lemma_after_steps(d, d.steps as nat);
    assert forall|k: nat| k < d.steps implies (#[trigger] after_steps(d, k)).fading()
        && after_steps(d, k).next_level() == level_at(d.start, d.target, d.steps as nat, k + 1) by {
        lemma_after_steps(d, k);
        lemma_level_between(d.start, d.target, d.steps as nat, k + 1);
    }
    assert forall|j: nat, k: nat| j <= k <= d.steps && d.start <= d.target implies #[trigger] level_at(
        d.start,
        d.target,
        d.steps as nat,
        j,
    ) <= #[trigger] level_at(d.start, d.target, d.steps as nat, k) by {
        lemma_level_monotone(d.start, d.target, d.steps as nat, j, k);
    }
    assert forall|j: nat, k: nat| j <= k <= d.steps && d.target < d.start implies #[trigger] level_at(
        d.start,
        d.target,
        d.steps as nat,
        k,
    ) <= #[trigger] level_at(d.start, d.target, d.steps as nat, j) by {
        lemma_level_monotone(d.start, d.target, d.steps as nat, j, k);
    }
    if d.steps > 0 {
        lemma_level_final(d.start, d.target, d.steps as nat);
    }
    lemma_complete_stays(d, extra);
}

/// Up to the number of steps of the fade, `k` calls of `fade_step` take `k`
/// steps and leave the rest of the dimmer as it was.
proof fn lemma_after_steps(d: Dimmer, k: nat)
    requires
        d.wf(),
        d.taken == 0,
        k <= d.steps,
    ensures
        after_steps(d, k) == (Dimmer { taken: k as u64, ..d }),
    decreases k,
{
    if k > 0 {
        lemma_after_steps(d, (k - 1) as nat);
    }
}

/// Once a fade is complete, further calls of `fade_step` change nothing.
proof fn lemma_complete_stays(d: Dimmer, extra: nat)
    requires
        d.wf(),
        d.taken == 0,
    ensures
        after_steps(d, d.steps as nat + extra) == after_steps(d, d.steps as nat),
    decreases extra,
{
    if extra > 0 {
        lemma_complete_stays(d, (extra - 1) as nat);
        lemma_after_steps(d, d.steps as nat);
        assert(after_steps(d, d.steps as nat + extra) == after_steps(
            d,
            (d.steps as nat + extra - 1) as nat,
        ).stepped());
    }
}

} // verus!
