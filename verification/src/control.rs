//! The control-loop state machine.
//!
//! Each tick of the daemon reads the sensors, derives a target speed from
//! the curve, publishes a snapshot, and decides whether the fans must be
//! driven again. The decisions live here as verified transitions on
//! [`DaemonState`]; the caller owns the background thread, the sleeps and
//! the actual sensor and fan commands, and feeds their outcomes in.

use vstd::prelude::*;
use crate::curve::{calculate_target_speed, target_speed};

verus! {

/// Latest published snapshot, written once per successful tick and read
/// by any number of observers.
#[derive(Clone, Copy, Debug, PartialEq, Eq, Structural)]
pub struct SharedStatus {
    pub current_temp: u32,
    pub current_speed: u32,
    pub gpu_usage: u32,
}

impl Default for SharedStatus {
    fn default() -> (st: SharedStatus)
        ensures
            st == (SharedStatus { current_temp: 0, current_speed: 0, gpu_usage: 0 }),
    {
        SharedStatus { current_temp: 0, current_speed: 0, gpu_usage: 0 }
    }
}

/// What one tick asks of the actuation phase: the derived target, whether
/// the fans must be driven at all, and how many of them to drive.
#[derive(Clone, Copy, Debug, PartialEq, Eq, Structural)]
pub struct TickPlan {
    pub target: u32,
    pub should_apply: bool,
    pub fan_count: u32,
}

/// `start` launches a background cycle exactly when none is running yet.
pub open spec fn start_spawns(running: bool) -> bool {
    !running
}

/// After `start`, a cycle is running, whether or not this call spawned it.
pub open spec fn after_start(running: bool) -> bool {
    true
}

/// The debounce: the fans are driven again exactly when no output is
/// confirmed applied, or the confirmed output differs from the target.
pub open spec fn needs_apply(last: Option<u32>, target: u32) -> bool {
    last != Some(target)
}

/// The last applied output after an actuation round: confirmed only when
/// every fan write succeeded; any failure resets it to unknown.
pub open spec fn after_actuation(target: u32, all_success: bool) -> Option<u32> {
    if all_success {
        Some(target)
    } else {
        None
    }
}

/// A failed utilization read substitutes 0; utilization is advisory and
/// never aborts a tick.
pub open spec fn usage_or_zero(usage: Option<u32>) -> u32 {
    match usage {
        Some(u) => u,
        None => 0,
    }
}

/// Per-instance control state. The caller shares it behind its own lock
/// and drives it through the transition methods below.
#[derive(Clone)]
pub struct DaemonState {
    /// Whether a background cycle is active.
    pub running: bool,
    /// The response curve, read anew on every tick; writable at any time
    /// between ticks.
    pub curve: Vec<(u32, u32)>,
    /// Latest published snapshot.
    pub status: SharedStatus,
    /// Last output confirmed applied to every fan; `None` forces a full
    /// re-application on the next tick.
    pub last_speed: Option<u32>,
    /// Number of fans driven each tick, resolved once at cycle start.
    pub fan_count: u32,
}

impl DaemonState {
    /// Fresh state: stopped, nothing published, no output confirmed, a
    /// single fan assumed until the cycle start resolves the real count.
    pub fn new(curve: Vec<(u32, u32)>) -> (s: DaemonState)
        ensures
            !s.running,
            s.curve == curve,
            s.status == (SharedStatus { current_temp: 0, current_speed: 0, gpu_usage: 0 }),
            s.last_speed is None,
            s.fan_count == 1,
    {
        DaemonState {
            running: false,
            curve,
            status: SharedStatus::default(),
            last_speed: None,
            fan_count: 1,
        }
    }

    /// Ask for a background cycle. Returns whether the caller must spawn
    /// one: starting while already running is a no-op, so at most one
    /// cycle is ever active per instance.
    pub fn start(&mut self) -> (spawn: bool)
        ensures
            spawn == start_spawns(old(self).running),
            final(self).running == after_start(old(self).running),
            final(self).curve == old(self).curve,
            final(self).status == old(self).status,
            final(self).last_speed == old(self).last_speed,
            final(self).fan_count == old(self).fan_count,
    {
        if self.running {
            false
        } else {
            self.running = true;
            true
        }
    }

    /// Signal the background cycle to exit; it observes the flag at its
    /// next tick.
    pub fn stop(&mut self)
        ensures
            !final(self).running,
            final(self).curve == old(self).curve,
            final(self).status == old(self).status,
            final(self).last_speed == old(self).last_speed,
            final(self).fan_count == old(self).fan_count,
    {
        self.running = false;
    }

    /// Record the fan count resolved at cycle start; a failed resolution
    /// degrades to single-fan control instead of refusing to run.
    pub fn resolve_fan_count(&mut self, counted: Option<u32>)
        ensures
            final(self).fan_count == (match counted {
                Some(n) => n,
                None => 1u32,
            }),
            final(self).running == old(self).running,
            final(self).curve == old(self).curve,
            final(self).status == old(self).status,
            final(self).last_speed == old(self).last_speed,
    {
        self.fan_count = match counted {
            Some(n) => n,
            None => 1,
        };
    }

    /// Replace the response curve; the next tick evaluates against it.
    pub fn set_curve(&mut self, curve: Vec<(u32, u32)>)
        ensures
            final(self).curve == curve,
            final(self).running == old(self).running,
            final(self).status == old(self).status,
            final(self).last_speed == old(self).last_speed,
            final(self).fan_count == old(self).fan_count,
    {
        self.curve = curve;
    }

    /// Read-only snapshot for observers.
    pub fn snapshot(&self) -> (st: SharedStatus)
        ensures
            st == self.status,
    {
        self.status
    }

    /// One tick's sensing and publishing, given the outcomes of the
    /// temperature and utilization reads. A failed temperature read
    /// changes nothing — the previously published snapshot stays as it
    /// is — and the tick's actuation is skipped. On a successful read the
    /// full triple is published at once and the actuation plan is
    /// returned.
    pub fn tick_sense(&mut self, temp: Option<u32>, usage: Option<u32>) -> (plan: Option<
        TickPlan,
    >)
        ensures
            temp is None ==> plan is None && *final(self) == *old(self),
            temp matches Some(t) ==> {
                &&& plan matches Some(p)
                &&& p.target as int == target_speed(t as int, old(self).curve@)
                &&& p.should_apply == needs_apply(old(self).last_speed, p.target)
                &&& p.fan_count == old(self).fan_count
                &&& final(self).status == (SharedStatus {
                    current_temp: t,
                    current_speed: p.target,
                    gpu_usage: usage_or_zero(usage),
                })
                &&& final(self).running == old(self).running
                &&& final(self).curve == old(self).curve
                &&& final(self).last_speed == old(self).last_speed
                &&& final(self).fan_count == old(self).fan_count
            },
    {
        match temp {
            None => None,
            Some(t) => {
                let target = calculate_target_speed(t, self.curve.as_slice());
                let usage_value = match usage {
                    Some(u) => u,
                    None => 0,
                };
                self.status = SharedStatus {
                    current_temp: t,
                    current_speed: target,
                    gpu_usage: usage_value,
                };
                let apply = match self.last_speed {
                    Some(s) => s != target,
                    None => true,
                };
                Some(TickPlan { target, should_apply: apply, fan_count: self.fan_count })
            },
        }
    }

    /// Record the outcome of the actuation phase of a tick that drove the
    /// fans: the target becomes the confirmed output only when every fan
    /// write succeeded.
    pub fn tick_actuate(&mut self, target: u32, all_success: bool)
        ensures
            final(self).last_speed == after_actuation(target, all_success),
            final(self).running == old(self).running,
            final(self).curve == old(self).curve,
            final(self).status == old(self).status,
            final(self).fan_count == old(self).fan_count,
    {
        if all_success {
            self.last_speed = Some(target);
        } else {
            self.last_speed = None;
        }
    }
}

/// A failing fan write in one tick forces a full re-issue in the next:
/// once a round is recorded as failed, every later target must be applied
/// again, the unchanged target included.
pub proof fn lemma_failed_write_forces_reissue(target: u32, next_target: u32)
    ensures
        needs_apply(after_actuation(target, false), next_target),
{
}

/// Starting twice without an intervening stop never spawns a second
/// concurrent cycle: whatever the state was, after one `start` the flag
/// is set, and `start` on a set flag spawns nothing.
pub proof fn lemma_no_second_cycle(running: bool)
    ensures
        !start_spawns(after_start(running)),
{
}

} // verus!
