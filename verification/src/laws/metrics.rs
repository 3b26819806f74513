//! What is counted, and what the daemon does when.
use crate::daemon::{first_action, next_step, next_watch, phase_after, Action, Event, Phase,
    WatchAction, WatchEvent};
use crate::obs::{all_recorded, gauge_value, no_metrics, recorded, trigger_text, Metrics, Trigger};
use vstd::prelude::*;

verus! {

/// A reconcile and what became of it: what set it off, the numbers of egress rules, ingress rules and
/// sets that it put into force, if it succeeded, and the time.
pub type Run = (Trigger, Option<(usize, usize, usize)>, u64);

/// How many of a list of reconciles something set off and ended with success or without.
pub open spec fn runs_of(runs: Seq<Run>, t: Trigger, success: bool) -> nat
    decreases runs.len(),
{
    if runs.len() == 0 {
        0
    } else {
        runs_of(runs.drop_last(), t, success) + (if runs.last().0 == t && (runs.last().1 is Some)
            == success {
            1nat
        } else {
            0nat
        })
    }
}

/// The counters tell how often each trigger led to success and to failure, as far as a counter goes.
pub proof fn counters_add_up(runs: Seq<Run>, t: Trigger)
    ensures
        all_recorded(runs).success.of(t) == runs_of(runs, t, true) % 0x1_0000_0000_0000_0000,
        all_recorded(runs).error.of(t) == runs_of(runs, t, false) % 0x1_0000_0000_0000_0000,
        all_recorded(runs).watch_restarts == 0,
    decreases runs.len(),
{
    if runs.len() > 0 {
        counters_add_up(runs.drop_last(), t);
    }
}

/// The gauges show the ruleset that the last success put into force and when, whatever failed since.
pub proof fn gauges_show_last_success(runs: Seq<Run>, i: int)
    requires
        0 <= i < runs.len(),
        runs[i].1 is Some,
        forall|j: int| i < j < runs.len() ==> (#[trigger] runs[j]).1 is None,
    ensures
        ({
            let m = all_recorded(runs);
            let (egress, ingress, sets) = runs[i].1->Some_0;
            &&& m.egress_rules == gauge_value(egress as nat)
            &&& m.ingress_rules == gauge_value(ingress as nat)
            &&& m.sets == gauge_value(sets as nat)
            &&& m.last_success == gauge_value(runs[i].2 as nat)
            &&& m.is_ready
        }),
    decreases runs.len(),
{
    let n = runs.len() - 1;
    if i < n {
        let init = runs.drop_last();
        assert(runs[n].1 is None);
        assert forall|j: int| i < j < init.len() implies (#[trigger] init[j]).1 is None by {
            assert(init[j] == runs[j]);
        }
        gauges_show_last_success(init, i);
    }
}

/// Before the first reconcile everything is zero and nothing is ready.
pub proof fn nothing_counted_at_first(t: Trigger)
    ensures
        no_metrics().success.of(t) == 0 && no_metrics().error.of(t) == 0,
        no_metrics().egress_rules == 0 && no_metrics().ingress_rules == 0 && no_metrics().sets == 0,
        no_metrics().last_success == 0 && no_metrics().watch_restarts == 0,
        !no_metrics().is_ready,
{
}

/// A reconcile leaves the count of watches that were set up again as it is.
pub proof fn reconcile_counts_no_restart(
    m: Metrics,
    t: Trigger,
    outcome: Option<(usize, usize, usize)>,
    now: u64,
)
    ensures
        recorded(m, t, outcome, now).watch_restarts == m.watch_restarts,
{
}

/// A gauge shows a size as it is, or the largest number that it can show if the size is larger.
pub proof fn gauge_is_clamped(n: nat)
    ensures
        gauge_value(n) <= n,
        gauge_value(n) == n || gauge_value(n) == 0x7fff_ffff_ffff_ffff,
        n <= 0x7fff_ffff_ffff_ffff ==> gauge_value(n) == n,
{
}

/// What sets a reconcile off goes by its own name.
pub proof fn triggers_by_name()
    ensures
        trigger_text(Trigger::Startup) == "startup"@,
        trigger_text(Trigger::Event) == "event"@,
        trigger_text(Trigger::Resync) == "resync"@,
{
}

/// While the daemon runs, the end of a period calls for a reconcile at once and a change for one
/// once changes are quiet; the watch is set up again when it ends, and nothing but a request to end
/// stops it, no failed reconcile either.
pub proof fn running_daemon_answers(event: Event)
    ensures
        next_step(Phase::Running, Event::Tick) == (
            Phase::Running,
            Action::Reconcile(Trigger::Resync),
        ),
        next_step(Phase::Running, Event::Changed) == (
            Phase::Running,
            Action::Settle(Trigger::Event),
        ),
        next_step(Phase::Running, Event::WatchEnded) == (Phase::Running, Action::RestartWatch),
        event is Reconciled ==> next_step(Phase::Running, event) == (Phase::Running, Action::Wait),
        next_step(Phase::Running, event).0 == Phase::Stopped <==> event == Event::Shutdown,
        event != Event::Shutdown ==> next_step(Phase::Running, event).0 == Phase::Running,
{
}

/// The daemon starts with a reconcile and waits for its end: with success it runs, and with failure
/// it ends without success.
pub proof fn starting_daemon_waits(event: Event)
    ensures
        first_action() == Action::Reconcile(Trigger::Startup),
        next_step(Phase::Starting, Event::Reconciled(true)) == (Phase::Running, Action::Wait),
        next_step(Phase::Starting, Event::Reconciled(false)) == (
            Phase::Stopped,
            Action::Exit(false),
        ),
        !(event is Reconciled) ==> next_step(Phase::Starting, event) == (
            Phase::Starting,
            Action::Wait,
        ),
{
}

/// A daemon that has ended stays so, whatever happens.
pub proof fn ended_daemon_stays_so(events: Seq<Event>, more: Seq<Event>)
    requires
        phase_after(events) == Phase::Stopped,
    ensures
        phase_after(events + more) == Phase::Stopped,
    decreases more.len(),
{
    if more.len() == 0 {
        assert(events + more =~= events);
    } else {
        assert((events + more).drop_last() =~= events + more.drop_last());
        assert((events + more).last() == more.last());
        ended_daemon_stays_so(events, more.drop_last());
    }
}

/// A daemon whose first reconcile failed ends and does nothing more.
pub proof fn failed_start_ends(events: Seq<Event>, i: int)
    requires
        0 <= i < events.len(),
        events[i] == Event::Reconciled(false),
        forall|j: int| 0 <= j < i ==> !((#[trigger] events[j]) is Reconciled),
    ensures
        phase_after(events) == Phase::Stopped,
{
    let first = events.take(i);
    lemma_still_starting(first);
    let upto = events.take(i + 1);
    assert(upto.drop_last() =~= first);
    assert(events =~= upto + events.skip(i + 1));
    ended_daemon_stays_so(upto, events.skip(i + 1));
}

proof fn lemma_still_starting(events: Seq<Event>)
    requires
        forall|j: int| 0 <= j < events.len() ==> !((#[trigger] events[j]) is Reconciled),
    ensures
        phase_after(events) == Phase::Starting,
    decreases events.len(),
{
    if events.len() > 0 {
        let init = events.drop_last();
        assert(!(events[events.len() - 1] is Reconciled));
        assert forall|j: int| 0 <= j < init.len() implies !((#[trigger] init[j]) is Reconciled) by {
            assert(init[j] == events[j]);
        }
        lemma_still_starting(init);
    }
}

/// The watch signals the events that count and reads on after all others; it ends only once nobody
/// receives its signals, and subscribes again, after a pause, when the stream is lost.
pub proof fn watch_goes_on(sent: bool, closed: bool, relevant: bool)
    ensures
        next_watch(WatchEvent::Begun) == (WatchAction::Subscribe { again: false }),
        next_watch(WatchEvent::Rested) == (WatchAction::Subscribe { again: true }),
        next_watch(WatchEvent::Message(relevant)) is Signal <==> relevant,
        next_watch(WatchEvent::Message(relevant)) is Read <==> !relevant,
        next_watch(WatchEvent::Signalled { sent, closed }) is Stop <==> closed && !sent,
        next_watch(WatchEvent::Signalled { sent, closed }) is Read <==> sent || !closed,
        next_watch(WatchEvent::Lost { closed }) is Stop <==> closed,
        next_watch(WatchEvent::Lost { closed }) is Rest <==> !closed,
{
}

} // verus!
