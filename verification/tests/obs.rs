use suho::daemon::{watch_step, Action, Daemon, Event, Phase, WatchAction, WatchEvent};
use suho::obs::{clamp, clamp_u64, Metrics, Trigger};

#[test]
fn metrics_render_and_ready() {
    let mut m = Metrics::default();
    assert!(!m.ready());
    m.record(Trigger::Startup, None, 5);
    assert!(!m.ready());
    m.record(Trigger::Event, Some((3, 2, 1)), 7);
    assert!(m.ready());
    m.watch_restarted();

    assert_eq!(m.error.startup, 1);
    assert_eq!(m.success.event, 1);
    assert_eq!(m.egress_rules, 3);
    assert_eq!(m.ingress_rules, 2);
    assert_eq!(m.sets, 1);
    assert_eq!(m.watch_restarts, 1);
    assert_eq!(m.last_success, 7);
}

#[test]
fn failure_keeps_the_last_good_values() {
    let mut m = Metrics::default();
    m.record(Trigger::Startup, Some((3, 2, 1)), 7);
    let before = m;
    m.record(Trigger::Resync, None, 99);
    assert_eq!(m.error.resync, 1);
    assert_eq!(m.last_success, 7);
    m.error = before.error;
    assert_eq!(m, before);
}

#[test]
fn gauges_are_clamped() {
    assert_eq!(clamp(7), 7);
    assert_eq!(clamp_u64(u64::MAX), i64::MAX);
    assert_eq!(clamp_u64(i64::MAX as u64), i64::MAX);
}

#[test]
fn triggers_have_names() {
    assert_eq!(Trigger::Startup.as_str(), "startup");
    assert_eq!(Trigger::Event.as_str(), "event");
    assert_eq!(Trigger::Resync.as_str(), "resync");
}

#[test]
fn daemon_fails_closed() {
    let (mut d, first) = Daemon::start();
    assert_eq!(first, Action::Reconcile(Trigger::Startup));
    assert_eq!(d.step(Event::Reconciled(false)), Action::Exit(false));
    assert_eq!(d.phase, Phase::Stopped);
}

#[test]
fn daemon_keeps_running() {
    let (mut d, _) = Daemon::start();
    assert_eq!(d.step(Event::Reconciled(true)), Action::Wait);
    assert_eq!(d.step(Event::Tick), Action::Reconcile(Trigger::Resync));
    assert_eq!(d.step(Event::Reconciled(false)), Action::Wait);
    assert_eq!(d.step(Event::Changed), Action::Settle(Trigger::Event));
    assert_eq!(d.step(Event::WatchEnded), Action::RestartWatch);
    assert_eq!(d.phase, Phase::Running);
    assert_eq!(d.step(Event::Shutdown), Action::Exit(true));
}

#[test]
fn watch_resubscribes_and_stops() {
    assert_eq!(
        watch_step(WatchEvent::Begun),
        WatchAction::Subscribe { again: false }
    );
    assert_eq!(watch_step(WatchEvent::Message(true)), WatchAction::Signal);
    assert_eq!(watch_step(WatchEvent::Message(false)), WatchAction::Read);
    let pending = WatchEvent::Signalled {
        sent: false,
        closed: false,
    };
    assert_eq!(watch_step(pending), WatchAction::Read);
    let gone = WatchEvent::Signalled {
        sent: false,
        closed: true,
    };
    assert_eq!(watch_step(gone), WatchAction::Stop);
    assert_eq!(
        watch_step(WatchEvent::Lost { closed: false }),
        WatchAction::Rest
    );
    assert_eq!(
        watch_step(WatchEvent::Lost { closed: true }),
        WatchAction::Stop
    );
    assert_eq!(
        watch_step(WatchEvent::Rested),
        WatchAction::Subscribe { again: true }
    );
}
