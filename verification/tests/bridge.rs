use nut_power_bridge::bridge::source_change;
use nut_power_bridge::bridge::Action;
use nut_power_bridge::bridge::Bridge;
use nut_power_bridge::bridge::Effects;
use nut_power_bridge::bridge::Event;
use nut_power_bridge::bridge::Phase;
use nut_power_bridge::charging::ChargeSource;
use nut_power_bridge::snapshot::Snapshot;

const FIRST: Snapshot = Snapshot {
    capacity: 40,
    voltage_now_uv: 12_500_000,
    time_to_empty_seconds: 900,
    status: 1,
    ac_online: 1,
    time_to_full_seconds: 3600,
    charge_source: Some(ChargeSource::Learned),
};

/// The first snapshot as it is shown without a server.
const UNKNOWN: Snapshot = Snapshot {
    status: 0,
    time_to_full_seconds: 0,
    charge_source: None,
    ..FIRST
};

const QUIET: Effects = Effects { interrupted: false, notice: None };

const LOSS: Effects = Effects { interrupted: true, notice: None };

/// A loop that has published a snapshot and waits for the next poll.
fn published() -> Bridge {
    let mut bridge = Bridge::new();
    bridge.step(Event::Connected);
    bridge.step(Event::Fetched { snapshot: FIRST });
    bridge.step(Event::Written);
    bridge
}

#[test]
fn snapshots_are_read_and_published() {
    let mut bridge = Bridge::new();
    assert_eq!(bridge.action(), Action::Connect);
    assert_eq!(bridge.step(Event::Connected), QUIET);
    assert_eq!(bridge.action(), Action::Fetch);
    assert_eq!(bridge.step(Event::Fetched { snapshot: FIRST }), QUIET);
    assert_eq!(bridge.action(), Action::Write { snapshot: FIRST });
    let effects = bridge.step(Event::Written);
    assert_eq!(
        effects.notice.as_deref(),
        Some("charging time source: learned charging rate; time to full: 3600 seconds")
    );
    assert!(!effects.interrupted);
    assert_eq!(bridge.last_published, Some(FIRST));
    assert_eq!(bridge.action(), Action::Pause);
    assert_eq!(bridge.step(Event::Paused), QUIET);
    assert_eq!(bridge.action(), Action::Fetch);
}

#[test]
fn a_lost_server_is_shown_once() {
    let mut bridge = published();
    bridge.step(Event::Paused);
    assert_eq!(bridge.step(Event::FetchFailed), LOSS);
    assert_eq!(bridge.action(), Action::Write { snapshot: UNKNOWN });
    assert_eq!(bridge.step(Event::Written), QUIET);
    assert!(bridge.degraded_published);
    // What was read last is kept.
    assert_eq!(bridge.last_published, Some(FIRST));
    for _ in 0..3 {
        assert_eq!(bridge.action(), Action::Pause);
        bridge.step(Event::Paused);
        assert_eq!(bridge.action(), Action::Connect);
        assert_eq!(bridge.step(Event::Disconnected), LOSS);
    }
    bridge.step(Event::Paused);
    bridge.step(Event::Connected);
    bridge.step(Event::Fetched { snapshot: FIRST });
    // The source has not changed since the last snapshot.
    assert_eq!(bridge.step(Event::Written), QUIET);
    assert!(!bridge.degraded_published);
    bridge.step(Event::Paused);
    bridge.step(Event::FetchFailed);
    assert_eq!(bridge.action(), Action::Write { snapshot: UNKNOWN });
}

#[test]
fn a_failed_write_is_tried_again() {
    let mut bridge = published();
    bridge.step(Event::Paused);
    bridge.step(Event::FetchFailed);
    assert_eq!(bridge.step(Event::WriteFailed), QUIET);
    assert!(!bridge.degraded_published);
    assert_eq!(bridge.phase, Phase::Pausing { connected: false });
    bridge.step(Event::Paused);
    bridge.step(Event::Disconnected);
    assert_eq!(bridge.action(), Action::Write { snapshot: UNKNOWN });
}

#[test]
fn a_failed_write_keeps_the_connection() {
    let mut bridge = published();
    bridge.step(Event::Paused);
    let next = Snapshot { capacity: 41, charge_source: Some(ChargeSource::UpsTime), ..FIRST };
    bridge.step(Event::Fetched { snapshot: next });
    assert_eq!(bridge.step(Event::WriteFailed), QUIET);
    assert_eq!(bridge.last_published, Some(FIRST));
    bridge.step(Event::Paused);
    assert_eq!(bridge.action(), Action::Fetch);
}

#[test]
fn nothing_is_shown_before_the_first_snapshot() {
    let mut bridge = Bridge::new();
    assert_eq!(bridge.step(Event::Disconnected), LOSS);
    assert_eq!(bridge.action(), Action::Pause);
    bridge.step(Event::Paused);
    bridge.step(Event::Connected);
    assert_eq!(bridge.step(Event::FetchFailed), LOSS);
    assert_eq!(bridge.action(), Action::Pause);
    bridge.step(Event::Paused);
    assert_eq!(bridge.action(), Action::Connect);
}

#[test]
fn changes_of_the_source_are_logged() {
    let with = |source| Snapshot { charge_source: source, ..FIRST };
    let texts = [
        (ChargeSource::UpsTime, "UPS time-to-full variable"),
        (ChargeSource::UpsCurrent, "UPS battery current and capacity"),
        (ChargeSource::Learned, "learned charging rate"),
        (ChargeSource::Fallback, "configured fallback charging rate"),
    ];
    for (source, description) in texts {
        let notice =
            format!("charging time source: {description}; time to full: 3600 seconds");
        assert_eq!(source_change(None, with(Some(source))), Some(notice.clone()));
        assert_eq!(source_change(Some(with(None)), with(Some(source))), Some(notice));
        assert_eq!(source_change(Some(with(Some(source))), with(Some(source))), None);
        assert_eq!(source_change(Some(with(Some(source))), with(None)), None);
    }
    assert!(source_change(
        Some(with(Some(ChargeSource::Learned))),
        with(Some(ChargeSource::Fallback))
    )
    .is_some());
}
