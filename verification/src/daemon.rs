//! What the daemon does next.
use crate::obs::Trigger;
use vstd::prelude::*;

verus! {

/// Where the daemon is.
#[derive(Debug, Clone, Copy, PartialEq, Eq, Structural)]
pub enum Phase {
    /// No reconcile has succeeded since the start.
    Starting,
    /// A ruleset is in force.
    Running,
    /// The daemon has ended.
    Stopped,
}

/// What happened.
#[derive(Debug, Clone, Copy, PartialEq, Eq, Structural)]
pub enum Event {
    /// A reconcile ended, with success or without.
    Reconciled(bool),
    /// The process is asked to end.
    Shutdown,
    /// The resync period is over.
    Tick,
    /// Containers changed.
    Changed,
    /// The watch for changes ended.
    WatchEnded,
}

/// What to do next.
#[derive(Debug, Clone, Copy, PartialEq, Eq, Structural)]
pub enum Action {
    /// Reconcile.
    Reconcile(Trigger),
    /// Wait until changes have been quiet, then reconcile.
    Settle(Trigger),
    /// Set the watch for changes up again, and count that.
    RestartWatch,
    /// Wait for what happens.
    Wait,
    /// End, with success or without.
    Exit(bool),
}

/// What to do first.
pub open spec fn first_action() -> Action {
    Action::Reconcile(Trigger::Startup)
}

/// Where the daemon is after an event, and what it does next. If the first reconcile fails the
/// daemon ends without success; a later one that fails leaves it running.
pub open spec fn next_step(phase: Phase, event: Event) -> (Phase, Action) {
    match (phase, event) {
        (Phase::Starting, Event::Reconciled(true)) => (Phase::Running, Action::Wait),
        (Phase::Starting, Event::Reconciled(false)) => (Phase::Stopped, Action::Exit(false)),
        (Phase::Starting, _) => (Phase::Starting, Action::Wait),
        (Phase::Running, Event::Reconciled(_)) => (Phase::Running, Action::Wait),
        (Phase::Running, Event::Shutdown) => (Phase::Stopped, Action::Exit(true)),
        (Phase::Running, Event::Tick) => (Phase::Running, Action::Reconcile(Trigger::Resync)),
        (Phase::Running, Event::Changed) => (Phase::Running, Action::Settle(Trigger::Event)),
        (Phase::Running, Event::WatchEnded) => (Phase::Running, Action::RestartWatch),
        (Phase::Stopped, _) => (Phase::Stopped, Action::Wait),
    }
}

/// The daemon: where it is.
#[derive(Debug, Clone, Copy, PartialEq, Eq, Structural)]
pub struct Daemon {
    pub phase: Phase,
}

impl Daemon {
    /// A daemon that starts, and what it does first.
    pub fn start() -> (r: (Daemon, Action))
        ensures
            r.0.phase == Phase::Starting,
            r.1 == first_action(),
    {
        (Daemon { phase: Phase::Starting }, Action::Reconcile(Trigger::Startup))
    }

    /// Takes an event in, and says what to do next.
    pub fn step(&mut self, event: Event) -> (r: Action)
        ensures
            (final(self).phase, r) == next_step(old(self).phase, event),
    {
        let (phase, action) = match (self.phase, event) {
            (Phase::Starting, Event::Reconciled(ok)) => if ok {
                (Phase::Running, Action::Wait)
            } else {
                (Phase::Stopped, Action::Exit(false))
            },
            (Phase::Starting, _) => (Phase::Starting, Action::Wait),
            (Phase::Running, Event::Reconciled(_)) => (Phase::Running, Action::Wait),
            (Phase::Running, Event::Shutdown) => (Phase::Stopped, Action::Exit(true)),
            (Phase::Running, Event::Tick) => (Phase::Running, Action::Reconcile(Trigger::Resync)),
            (Phase::Running, Event::Changed) => (Phase::Running, Action::Settle(Trigger::Event)),
            (Phase::Running, Event::WatchEnded) => (Phase::Running, Action::RestartWatch),
            (Phase::Stopped, _) => (Phase::Stopped, Action::Wait),
        };
        self.phase = phase;
        action
    }
}

/// The phase after a list of events.
pub open spec fn phase_after(events: Seq<Event>) -> Phase
    decreases events.len(),
{
    if events.len() == 0 {
        Phase::Starting
    } else {
        next_step(phase_after(events.drop_last()), events.last()).0
    }
}

/// The daemon runs only once its first reconcile has succeeded: it fails closed.
pub proof fn runs_only_enforcing(events: Seq<Event>)
    requires
        phase_after(events) == Phase::Running,
    ensures
        events.contains(Event::Reconciled(true)),
    decreases events.len(),
{
    if events.len() > 0 {
        let init = events.drop_last();
        if phase_after(init) == Phase::Running {
            runs_only_enforcing(init);
            let i = choose|i: int| 0 <= i < init.len() && init[i] == Event::Reconciled(true);
            assert(events[i] == Event::Reconciled(true));
        } else {
            assert(events[events.len() - 1] == Event::Reconciled(true));
        }
    }
}

/// A daemon that runs ends only when it is asked to, and then with success.
pub proof fn ends_only_when_asked(event: Event)
    ensures
        next_step(Phase::Running, event).1 is Exit <==> event == Event::Shutdown,
        event == Event::Shutdown ==> next_step(Phase::Running, event).1 == Action::Exit(true),
{
}

/// What the watch for container events hears.
#[derive(Debug, Clone, Copy, PartialEq, Eq, Structural)]
pub enum WatchEvent {
    /// The watch begins.
    Begun,
    /// An event came, which calls for a reconcile or not.
    Message(bool),
    /// A signal was sent or could not be, to a receiver that is still there or not.
    Signalled { sent: bool, closed: bool },
    /// The stream of events failed or ended, with the receiver of signals gone or not.
    Lost { closed: bool },
    /// The pause is over.
    Rested,
}

/// What the watch does next.
#[derive(Debug, Clone, Copy, PartialEq, Eq, Structural)]
pub enum WatchAction {
    /// Subscribe to events, for the first time or again.
    Subscribe { again: bool },
    /// Take the next event.
    Read,
    /// Send a signal.
    Signal,
    /// Pause for a second.
    Rest,
    /// End.
    Stop,
}

/// What the watch does next: it signals the events that count, subscribes again after a pause when
/// the stream is lost, and ends once nobody receives its signals. A signal that cannot be sent to a
/// receiver that is still there is one that is pending already.
pub open spec fn next_watch(event: WatchEvent) -> WatchAction {
    match event {
        WatchEvent::Begun => WatchAction::Subscribe { again: false },
        WatchEvent::Message(true) => WatchAction::Signal,
        WatchEvent::Message(false) => WatchAction::Read,
        WatchEvent::Signalled { sent, closed } => if !sent && closed {
            WatchAction::Stop
        } else {
            WatchAction::Read
        },
        WatchEvent::Lost { closed } => if closed {
            WatchAction::Stop
        } else {
            WatchAction::Rest
        },
        WatchEvent::Rested => WatchAction::Subscribe { again: true },
    }
}

/// Says what the watch does next.
pub fn watch_step(event: WatchEvent) -> (r: WatchAction)
    ensures
        r == next_watch(event),
{
    match event {
        WatchEvent::Begun => WatchAction::Subscribe { again: false },
        WatchEvent::Message(relevant) => if relevant {
            WatchAction::Signal
        } else {
            WatchAction::Read
        },
        WatchEvent::Signalled { sent, closed } => if !sent && closed {
            WatchAction::Stop
        } else {
            WatchAction::Read
        },
        WatchEvent::Lost { closed } => if closed {
            WatchAction::Stop
        } else {
            WatchAction::Rest
        },
        WatchEvent::Rested => WatchAction::Subscribe { again: true },
    }
}

} // verus!
