//! The main loop of the daemon as a state machine: what to do next, and what is remembered.

use vstd::prelude::*;

use crate::charging::ChargeSource;
use crate::protocol::STATUS_UNKNOWN;
use crate::snapshot::Snapshot;
use crate::text::join2;
use crate::text::push_signed;
use crate::text::signed_decimal;

verus! {

/// What the loop is waiting for.
#[derive(Clone, Copy, Debug, PartialEq, Eq, Structural)]
pub enum Phase {
    /// A connection to the server.
    Connecting,
    /// A snapshot over the open connection.
    Fetching,
    /// The end of writing a snapshot that was read.
    Publishing { snapshot: Snapshot },
    /// The end of writing that the battery is not known.
    Degrading,
    /// The end of the pause; then a snapshot is read, or a connection is made.
    Pausing { connected: bool },
}

/// What the daemon is told to do.
#[derive(Clone, Copy, Debug, PartialEq, Eq, Structural)]
pub enum Action {
    Connect,
    Fetch,
    Write { snapshot: Snapshot },
    Pause,
}

/// How what the daemon was told to do ended.
#[derive(Clone, Copy, Debug, PartialEq, Eq, Structural)]
pub enum Event {
    Connected,
    Disconnected,
    Fetched { snapshot: Snapshot },
    FetchFailed,
    Written,
    WriteFailed,
    Paused,
}

/// What follows an event besides the next action: whether the observation of charging ends, and
/// what the log says.
#[derive(Debug, PartialEq, Eq)]
pub struct Effects {
    pub interrupted: bool,
    pub notice: Option<String>,
}

/// The state of the loop.
#[derive(Clone, Copy, Debug, PartialEq, Eq, Structural)]
pub struct Bridge {
    pub phase: Phase,
    pub last_published: Option<Snapshot>,
    pub degraded_published: bool,
}

/// A snapshot as it is shown while the server cannot be reached: the status is unknown and there
/// is no charging time; all else is kept.
pub open spec fn degraded(snapshot: Snapshot) -> Snapshot {
    Snapshot {
        status: STATUS_UNKNOWN,
        time_to_full_seconds: 0,
        charge_source: None,
        ..snapshot
    }
}

/// What the loop does in a phase.
pub open spec fn action_in(phase: Phase, last_published: Option<Snapshot>) -> Action {
    match phase {
        Phase::Connecting => Action::Connect,
        Phase::Fetching => Action::Fetch,
        Phase::Publishing { snapshot } => Action::Write { snapshot },
        Phase::Degrading => Action::Write { snapshot: degraded(last_published->Some_0) },
        Phase::Pausing { .. } => Action::Pause,
    }
}

impl Bridge {
    /// The battery is shown as unknown only where a snapshot was published before.
    pub open spec fn wf(self) -> bool {
        &&& self.phase is Degrading ==> self.last_published is Some && !self.degraded_published
        &&& self.degraded_published ==> self.last_published is Some
        &&& self.last_published matches Some(snapshot) ==> snapshot.wf()
        &&& self.phase matches Phase::Publishing { snapshot } ==> snapshot.wf()
    }

    /// Whether an event can end what the daemon is doing.
    pub open spec fn expects(self, event: Event) -> bool {
        match self.phase {
            Phase::Connecting => event is Connected || event is Disconnected,
            Phase::Fetching => event is FetchFailed || (event matches Event::Fetched { snapshot }
                && snapshot.wf()),
            Phase::Publishing { .. } => event is Written || event is WriteFailed,
            Phase::Degrading => event is Written || event is WriteFailed,
            Phase::Pausing { .. } => event is Paused,
        }
    }

    /// The state after the server was lost: the battery is shown as unknown, once.
    pub open spec fn after_loss(self) -> Bridge {
        Bridge {
            phase: if self.last_published is Some && !self.degraded_published {
                Phase::Degrading
            } else {
                Phase::Pausing { connected: false }
            },
            ..self
        }
    }

    /// The state after an event.
    pub open spec fn after(self, event: Event) -> Bridge {
        match self.phase {
            Phase::Connecting => if event is Connected {
                Bridge { phase: Phase::Fetching, ..self }
            } else {
                self.after_loss()
            },
            Phase::Fetching => match event {
                Event::Fetched { snapshot } => Bridge {
                    phase: Phase::Publishing { snapshot },
                    ..self
                },
                _ => self.after_loss(),
            },
            Phase::Publishing { snapshot } => if event is Written {
                Bridge {
                    phase: Phase::Pausing { connected: true },
                    last_published: Some(snapshot),
                    degraded_published: false,
                }
            } else {
                Bridge { phase: Phase::Pausing { connected: true }, ..self }
            },
            Phase::Degrading => Bridge {
                phase: Phase::Pausing { connected: false },
                degraded_published: event is Written,
                ..self
            },
            Phase::Pausing { connected } => Bridge {
                phase: if connected {
                    Phase::Fetching
                } else {
                    Phase::Connecting
                },
                ..self
            },
        }
    }

    /// Whether an event ends the observation of charging.
    pub open spec fn interrupts(event: Event) -> bool {
        event is Disconnected || event is FetchFailed
    }

    /// The state in which the daemon begins.
    pub fn new() -> (bridge: Bridge)
        ensures
            bridge == (Bridge {
                phase: Phase::Connecting,
                last_published: None,
                degraded_published: false,
            }),
            bridge.wf(),
    {
        Bridge { phase: Phase::Connecting, last_published: None, degraded_published: false }
    }

    /// What to do now.
    pub fn action(&self) -> (action: Action)
        requires
            self.wf(),
        ensures
            action == action_in(self.phase, self.last_published),
    {
        match self.phase {
            Phase::Connecting => Action::Connect,
            Phase::Fetching => Action::Fetch,
            Phase::Publishing { snapshot } => Action::Write { snapshot },
            Phase::Degrading => {
                let mut snapshot: Snapshot = self.last_published.unwrap();
                snapshot.status = STATUS_UNKNOWN;
                snapshot.time_to_full_seconds = 0;
                snapshot.charge_source = None;
                Action::Write { snapshot }
            },
            Phase::Pausing { .. } => Action::Pause,
        }
    }

    /// The state after the server was lost.
    fn lose(&self) -> (next: Bridge)
        ensures
            next == self.after_loss(),
    {
        let phase: Phase = if self.last_published.is_some() && !self.degraded_published {
            Phase::Degrading
        } else {
            Phase::Pausing { connected: false }
        };
        Bridge { phase, ..*self }
    }

    /// What the log says after an event.
    pub open spec fn notice_after(self, event: Event) -> Option<Seq<char>> {
        match self.phase {
            Phase::Publishing { snapshot } => if event is Written {
                source_notice(self.last_published, snapshot)
            } else {
                None
            },
            _ => None,
        }
    }

    /// Takes note of how what the daemon did ended.
    pub fn step(&mut self, event: Event) -> (effects: Effects)
        requires
            old(self).wf(),
            old(self).expects(event),
        ensures
            *final(self) == old(self).after(event),
            final(self).wf(),
            effects.interrupted == Bridge::interrupts(event),
            match effects.notice {
                Some(text) => old(self).notice_after(event) == Some(text@),
                None => old(self).notice_after(event) is None,
            },
    {
        let notice: Option<String> = match self.phase {
            Phase::Publishing { snapshot } => match event {
                Event::Written => source_change(self.last_published, snapshot),
                _ => None,
            },
            _ => None,
        };
        let next: Bridge = match self.phase {
            Phase::Connecting => match event {
                Event::Connected => Bridge { phase: Phase::Fetching, ..*self },
                _ => self.lose(),
            },
            Phase::Fetching => match event {
                Event::Fetched { snapshot } => Bridge {
                    phase: Phase::Publishing { snapshot },
                    ..*self
                },
                _ => self.lose(),
            },
            Phase::Publishing { snapshot } => match event {
                Event::Written => Bridge {
                    phase: Phase::Pausing { connected: true },
                    last_published: Some(snapshot),
                    degraded_published: false,
                },
                _ => Bridge { phase: Phase::Pausing { connected: true }, ..*self },
            },
            Phase::Degrading => Bridge {
                phase: Phase::Pausing { connected: false },
                last_published: self.last_published,
                degraded_published: match event {
                    Event::Written => true,
                    _ => false,
                },
            },
            Phase::Pausing { connected } => Bridge {
                phase: if connected {
                    Phase::Fetching
                } else {
                    Phase::Connecting
                },
                ..*self
            },
        };
        *self = next;
        let interrupted: bool = match event {
            Event::Disconnected => true,
            Event::FetchFailed => true,
            _ => false,
        };
        Effects { interrupted, notice }
    }
}

/// What the log calls a source.
pub open spec fn description_of(source: ChargeSource) -> Seq<char> {
    match source {
        ChargeSource::UpsTime => "UPS time-to-full variable"@,
        ChargeSource::UpsCurrent => "UPS battery current and capacity"@,
        ChargeSource::Learned => "learned charging rate"@,
        ChargeSource::Fallback => "configured fallback charging rate"@,
    }
}

/// What the log says when a snapshot is published: the source of its charging time, where it is
/// not the one of the snapshot before.
pub open spec fn source_notice(previous: Option<Snapshot>, published: Snapshot) -> Option<
    Seq<char>,
> {
    let before: Option<ChargeSource> = match previous {
        Some(snapshot) => snapshot.charge_source,
        None => None,
    };
    match published.charge_source {
        Some(source) => if before != Some(source) {
            Some(
                "charging time source: "@ + description_of(source) + "; time to full: "@
                    + signed_decimal(published.time_to_full_seconds as int) + " seconds"@,
            )
        } else {
            None
        },
        None => None,
    }
}

/// What the log says when a snapshot is published after another.
pub fn source_change(previous: Option<Snapshot>, published: Snapshot) -> (notice: Option<String>)
    ensures
        match notice {
            Some(text) => source_notice(previous, published) == Some(text@),
            None => source_notice(previous, published) is None,
        },
{
    let source: ChargeSource = match published.charge_source {
        Some(source) => source,
        None => {
            return None;
        },
    };
    if let Some(snapshot) = previous {
        if let Some(before) = snapshot.charge_source {
            if before == source {
                return None;
            }
        }
    }
    let description: &str = match source {
        ChargeSource::UpsTime => "UPS time-to-full variable",
        ChargeSource::UpsCurrent => "UPS battery current and capacity",
        ChargeSource::Learned => "learned charging rate",
        ChargeSource::Fallback => "configured fallback charging rate",
    };
    let mut text: String = join2("charging time source: ", description);
    text.append("; time to full: ");
    push_signed(&mut text, published.time_to_full_seconds);
    text.append(" seconds");
    Some(text)
}

} // verus!
