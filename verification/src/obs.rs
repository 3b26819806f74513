//! What is observed of the reconciles.
use vstd::prelude::*;

verus! {

/// What set off a reconcile.
#[derive(Debug, Clone, Copy, PartialEq, Eq, Structural)]
pub enum Trigger {
    Startup,
    Event,
    Resync,
}

/// The name of a trigger.
pub open spec fn trigger_text(t: Trigger) -> Seq<char> {
    match t {
        Trigger::Startup => "startup"@,
        Trigger::Event => "event"@,
        Trigger::Resync => "resync"@,
    }
}

impl Trigger {
    /// The name of the trigger.
    pub fn as_str(self) -> (r: &'static str)
        ensures
            r@ == trigger_text(self),
    {
        match self {
            Trigger::Startup => "startup",
            Trigger::Event => "event",
            Trigger::Resync => "resync",
        }
    }
}

/// A number of reconciles for each trigger.
#[derive(Debug, Clone, Copy, PartialEq, Eq, Structural)]
pub struct Counts {
    pub startup: u64,
    pub event: u64,
    pub resync: u64,
}

impl Counts {
    /// The number for a trigger.
    pub open spec fn of(self, t: Trigger) -> u64 {
        match t {
            Trigger::Startup => self.startup,
            Trigger::Event => self.event,
            Trigger::Resync => self.resync,
        }
    }

    /// The numbers with one more for a trigger; after the largest number comes zero.
    pub open spec fn counted(self, t: Trigger) -> Counts {
        match t {
            Trigger::Startup => Counts { startup: next_count(self.startup), ..self },
            Trigger::Event => Counts { event: next_count(self.event), ..self },
            Trigger::Resync => Counts { resync: next_count(self.resync), ..self },
        }
    }

    fn count(&mut self, t: Trigger)
        ensures
            *final(self) == old(self).counted(t),
    {
        match t {
            Trigger::Startup => {
                self.startup = self.startup.wrapping_add(1);
            },
            Trigger::Event => {
                self.event = self.event.wrapping_add(1);
            },
            Trigger::Resync => {
                self.resync = self.resync.wrapping_add(1);
            },
        }
    }
}

/// The count after a count.
pub open spec fn next_count(n: u64) -> u64 {
    if n == u64::MAX {
        0
    } else {
        (n + 1) as u64
    }
}

/// A size as a gauge shows it.
pub open spec fn gauge_value(n: nat) -> i64 {
    if n > i64::MAX {
        i64::MAX
    } else {
        n as i64
    }
}

/// A size as a gauge shows it: at most the largest signed number.
pub fn clamp(v: usize) -> (r: i64)
    ensures
        r == gauge_value(v as nat),
{
    clamp_u64(v as u64)
}

/// A number as a gauge shows it: at most the largest signed number.
pub fn clamp_u64(v: u64) -> (r: i64)
    ensures
        r == gauge_value(v as nat),
{
    if v > i64::MAX as u64 {
        i64::MAX
    } else {
        v as i64
    }
}

/// What the metrics show, but for the durations.
#[derive(Debug, Clone, Copy, PartialEq, Eq, Structural)]
pub struct Metrics {
    /// Reconciles that succeeded.
    pub success: Counts,
    /// Reconciles that failed.
    pub error: Counts,
    /// The time of the last success, in seconds since the beginning of 1970.
    pub last_success: i64,
    /// The egress rules of the ruleset in force.
    pub egress_rules: i64,
    /// The ingress rules of the ruleset in force.
    pub ingress_rules: i64,
    /// The named sets of the ruleset in force.
    pub sets: i64,
    /// Whether a reconcile has succeeded.
    pub is_ready: bool,
    /// How often the watch for events was set up again.
    pub watch_restarts: u64,
}

/// The metrics before the first reconcile.
pub open spec fn no_metrics() -> Metrics {
    let none = Counts { startup: 0, event: 0, resync: 0 };
    Metrics {
        success: none,
        error: none,
        last_success: 0,
        egress_rules: 0,
        ingress_rules: 0,
        sets: 0,
        is_ready: false,
        watch_restarts: 0,
    }
}

/// The metrics after a reconcile: with what it put into force if it succeeded. One that failed
/// leaves what is said of the ruleset in force.
pub open spec fn recorded(
    m: Metrics,
    trigger: Trigger,
    outcome: Option<(usize, usize, usize)>,
    now: u64,
) -> Metrics {
    match outcome {
        Some((egress, ingress, sets)) => Metrics {
            success: m.success.counted(trigger),
            last_success: gauge_value(now as nat),
            egress_rules: gauge_value(egress as nat),
            ingress_rules: gauge_value(ingress as nat),
            sets: gauge_value(sets as nat),
            is_ready: true,
            ..m
        },
        None => Metrics { error: m.error.counted(trigger), ..m },
    }
}

impl Default for Metrics {
    fn default() -> (r: Metrics)
        ensures
            r == no_metrics(),
    {
        let none = Counts { startup: 0, event: 0, resync: 0 };
        Metrics {
            success: none,
            error: none,
            last_success: 0,
            egress_rules: 0,
            ingress_rules: 0,
            sets: 0,
            is_ready: false,
            watch_restarts: 0,
        }
    }
}

impl Metrics {
    /// Records a reconcile at a time: `outcome` holds the numbers of egress rules, ingress rules and
    /// sets that it put into force, or nothing if it failed.
    pub fn record(&mut self, trigger: Trigger, outcome: Option<(usize, usize, usize)>, now: u64)
        ensures
            *final(self) == recorded(*old(self), trigger, outcome, now),
    {
        match outcome {
            Some((egress, ingress, sets)) => {
                self.success.count(trigger);
                self.egress_rules = clamp(egress);
                self.ingress_rules = clamp(ingress);
                self.sets = clamp(sets);
                self.last_success = clamp_u64(now);
                self.is_ready = true;
            },
            None => {
                self.error.count(trigger);
            },
        }
    }

    /// Counts that the watch for events was set up again.
    pub fn watch_restarted(&mut self)
        ensures
            *final(self) == (Metrics {
                watch_restarts: next_count(old(self).watch_restarts),
                ..*old(self)
            }),
    {
        self.watch_restarts = self.watch_restarts.wrapping_add(1);
    }

    /// Whether a reconcile has succeeded.
    pub fn ready(&self) -> (r: bool)
        ensures
            r == self.is_ready,
    {
        self.is_ready
    }
}

/// A failed reconcile is counted and leaves what is said of the ruleset in force as it was.
pub proof fn failure_keeps_last_good(m: Metrics, trigger: Trigger, now: u64)
    ensures
        ({
            let after = recorded(m, trigger, None, now);
            &&& after.error == m.error.counted(trigger)
            &&& after.success == m.success
            &&& after.egress_rules == m.egress_rules
            &&& after.ingress_rules == m.ingress_rules
            &&& after.sets == m.sets
            &&& after.last_success == m.last_success
            &&& after.is_ready == m.is_ready
        }),
{
}

/// The metrics after a list of reconciles.
pub open spec fn all_recorded(
    runs: Seq<(Trigger, Option<(usize, usize, usize)>, u64)>,
) -> Metrics
    decreases runs.len(),
{
    if runs.len() == 0 {
        no_metrics()
    } else {
        let (trigger, outcome, now) = runs.last();
        recorded(all_recorded(runs.drop_last()), trigger, outcome, now)
    }
}

/// The metrics are ready exactly if one of the reconciles so far succeeded.
pub proof fn ready_after_success(runs: Seq<(Trigger, Option<(usize, usize, usize)>, u64)>)
    ensures
        all_recorded(runs).is_ready <==> exists|i: int|
            0 <= i < runs.len() && (#[trigger] runs[i]).1 is Some,
    decreases runs.len(),
{
    if runs.len() > 0 {
        let init = runs.drop_last();
        ready_after_success(init);
        if exists|i: int| 0 <= i < init.len() && (#[trigger] init[i]).1 is Some {
            let i = choose|i: int| 0 <= i < init.len() && (#[trigger] init[i]).1 is Some;
            assert(runs[i] == init[i]);
        }
        if runs.last().1 is Some {
            assert(runs[runs.len() - 1].1 is Some);
        }
        if exists|i: int| 0 <= i < runs.len() && (#[trigger] runs[i]).1 is Some {
            let i = choose|i: int| 0 <= i < runs.len() && (#[trigger] runs[i]).1 is Some;
            if i < init.len() {
                assert(init[i] == runs[i]);
            }
        }
    }
}

} // verus!
