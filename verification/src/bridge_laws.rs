//! What holds of snapshots and of the main loop as a whole.

use vstd::prelude::*;

use crate::bridge::action_in;
use crate::bridge::degraded;
use crate::bridge::Action;
use crate::bridge::Bridge;
use crate::bridge::Event;
use crate::bridge::Phase;
use crate::charging::ChargeSource;
use crate::failure::Problem;
use crate::number::Number;
use crate::snapshot::line_of;
use crate::snapshot::step_after;
use crate::snapshot::FetchStage;
use crate::snapshot::FetchStep;
use crate::snapshot::Snapshot;
use crate::text::decimal;
use crate::text::is_digit;
use crate::text::is_space;
use crate::text::lemma_decimal_reads_back;
use crate::text::lemma_word_length_is;
use crate::text::signed_decimal;
use crate::text::words;

verus! {

/// Without a server, the last known percentage, voltage, runtime and mains power are kept, the
/// status is unknown and there is no charging time.
pub proof fn law_degraded_keeps_values(snapshot: Snapshot)
    ensures
        ({
            let shown = degraded(snapshot);
            &&& shown.capacity == snapshot.capacity
            &&& shown.voltage_now_uv == snapshot.voltage_now_uv
            &&& shown.time_to_empty_seconds == snapshot.time_to_empty_seconds
            &&& shown.ac_online == snapshot.ac_online
            &&& shown.status == 0
            &&& shown.time_to_full_seconds == 0
            &&& shown.charge_source is None
        }),
{
}

/// Once the battery has been shown as unknown, it is not shown so again until another snapshot
/// has been published; till then the last published one is kept.
pub proof fn law_unknown_is_shown_once(bridge: Bridge, event: Event)
    requires
        bridge.wf(),
        bridge.expects(event),
        bridge.degraded_published,
    ensures
        ({
            let next = bridge.after(event);
            &&& next.phase !is Degrading
            &&& next.degraded_published || (bridge.phase is Publishing && event is Written)
            &&& next.degraded_published ==> next.last_published == bridge.last_published
        }),
{
}

/// After the server is lost, the daemon first shows the battery as unknown, if it has anything to
/// show and has not done so, then pauses, and then connects again.
pub proof fn law_loss_leads_to_reconnection(bridge: Bridge, loss: Event, written: Event)
    requires
        bridge.wf(),
        bridge.expects(loss),
        Bridge::interrupts(loss),
        written is Written || written is WriteFailed,
    ensures
        ({
            let lost = bridge.after(loss);
            let paused = if lost.phase is Degrading {
                lost.after(written)
            } else {
                lost
            };
            &&& lost.phase is Degrading <==> bridge.last_published is Some
                && !bridge.degraded_published
            &&& lost.phase is Degrading ==> action_in(lost.phase, lost.last_published)
                == (Action::Write { snapshot: degraded(bridge.last_published->Some_0) })
            &&& paused.phase == (Phase::Pausing { connected: false })
            &&& paused.last_published == bridge.last_published
            &&& paused.after(Event::Paused).phase == Phase::Connecting
        }),
{
}

/// Nothing but a snapshot that was read from the UPS, or the last published one with its status
/// unknown, is ever written; and what was written is what is remembered.
pub proof fn law_only_read_snapshots_are_published(bridge: Bridge, event: Event)
    requires
        bridge.wf(),
        bridge.expects(event),
    ensures
        ({
            let next = bridge.after(event);
            &&& next.wf()
            &&& next.phase is Publishing ==> (event matches Event::Fetched { snapshot }
                && action_in(next.phase, next.last_published) == (Action::Write { snapshot }))
            &&& next.last_published != bridge.last_published ==> event is Written && action_in(
                bridge.phase,
                bridge.last_published,
            ) == (Action::Write { snapshot: next.last_published->Some_0 })
        }),
{
}

/// Every snapshot that is read is written, whatever was written before.
pub proof fn law_every_snapshot_is_written(bridge: Bridge, snapshot: Snapshot)
    requires
        bridge.phase is Fetching,
    ensures
        ({
            let next = bridge.after(Event::Fetched { snapshot });
            &&& action_in(next.phase, next.last_published) == (Action::Write { snapshot })
            &&& next.last_published == bridge.last_published
            &&& next.degraded_published == bridge.degraded_published
        }),
{
}

/// What was written is remembered, and the battery no longer counts as shown unknown. What could
/// not be written changes nothing. Either way the connection stays, and after a pause the next
/// snapshot is read.
pub proof fn law_polling_goes_on(bridge: Bridge, snapshot: Snapshot)
    requires
        bridge.phase == (Phase::Publishing { snapshot }),
    ensures
        ({
            let done = bridge.after(Event::Written);
            &&& done.last_published == Some(snapshot)
            &&& !done.degraded_published
            &&& action_in(done.phase, done.last_published) == Action::Pause
            &&& done.after(Event::Paused) == (Bridge { phase: Phase::Fetching, ..done })
            &&& action_in(Phase::Fetching, done.last_published) == Action::Fetch
        }),
        ({
            let failed = bridge.after(Event::WriteFailed);
            &&& failed.last_published == bridge.last_published
            &&& failed.degraded_published == bridge.degraded_published
            &&& action_in(failed.phase, failed.last_published) == Action::Pause
            &&& failed.after(Event::Paused) == (Bridge { phase: Phase::Fetching, ..failed })
        }),
{
}

/// The daemon connects first, and reads a snapshot as soon as it is connected.
pub proof fn law_a_connection_is_read(bridge: Bridge)
    requires
        bridge.phase is Connecting,
    ensures
        action_in(bridge.phase, bridge.last_published) == Action::Connect,
        bridge.after(Event::Connected) == (Bridge { phase: Phase::Fetching, ..bridge }),
        action_in(Phase::Fetching, bridge.last_published) == Action::Fetch,
{
}

/// The battery counts as shown unknown exactly when that was written; otherwise it is tried again
/// at the next loss.
pub proof fn law_showing_unknown_is_tried_until_written(bridge: Bridge)
    requires
        bridge.wf(),
        bridge.phase is Degrading,
    ensures
        bridge.after(Event::Written).degraded_published,
        !bridge.after(Event::WriteFailed).degraded_published,
        bridge.after(Event::Written).last_published == bridge.last_published,
        bridge.after(Event::WriteFailed).last_published == bridge.last_published,
        bridge.after(Event::WriteFailed).after(Event::Paused).after(Event::Disconnected).phase
            is Degrading,
{
}

/// A lost connection and a failed reading end the observation of charging; nothing else does.
pub proof fn law_losses_end_the_observation(snapshot: Snapshot)
    ensures
        Bridge::interrupts(Event::Disconnected),
        Bridge::interrupts(Event::FetchFailed),
        !Bridge::interrupts(Event::Connected),
        !Bridge::interrupts(Event::Fetched { snapshot }),
        !Bridge::interrupts(Event::Written),
        !Bridge::interrupts(Event::WriteFailed),
        !Bridge::interrupts(Event::Paused),
{
}

/// The log names the source of the charging time, with the time, when a snapshot is written whose
/// source is not that of the last one written; otherwise nothing is logged.
pub proof fn law_changed_sources_are_logged(bridge: Bridge, event: Event)
    ensures
        ({
            let notice = bridge.notice_after(event);
            let last: Option<ChargeSource> = match bridge.last_published {
                Some(snapshot) => snapshot.charge_source,
                None => None,
            };
            match bridge.phase {
                Phase::Publishing { snapshot } => if event is Written && snapshot.charge_source
                    is Some && snapshot.charge_source != last {
                    let name = match snapshot.charge_source->Some_0 {
                        ChargeSource::UpsTime => "UPS time-to-full variable"@,
                        ChargeSource::UpsCurrent => "UPS battery current and capacity"@,
                        ChargeSource::Learned => "learned charging rate"@,
                        ChargeSource::Fallback => "configured fallback charging rate"@,
                    };
                    notice == Some(
                        "charging time source: "@ + name + "; time to full: "@ + signed_decimal(
                            snapshot.time_to_full_seconds as int,
                        ) + " seconds"@,
                    )
                } else {
                    notice is None
                },
                _ => notice is None,
            }
        }),
{
}

/// A UPS without a runtime or a voltage shows the last known one, or zero.
pub proof fn law_missing_values_keep_last(
    capacity: i32,
    time_to_empty_seconds: i32,
    last_snapshot: Option<Snapshot>,
    has_time_to_full_var: bool,
)
    ensures
        step_after(
            FetchStage::Runtime { capacity },
            None,
            last_snapshot,
            has_time_to_full_var,
        ) == Ok::<FetchStep, Problem>(
            FetchStep::Ask {
                stage: FetchStage::Voltage {
                    capacity,
                    time_to_empty_seconds: match last_snapshot {
                        Some(last) => last.time_to_empty_seconds,
                        None => 0,
                    },
                },
            },
        ),
        step_after(
            FetchStage::Voltage { capacity, time_to_empty_seconds },
            None,
            last_snapshot,
            has_time_to_full_var,
        ) == Ok::<FetchStep, Problem>(
            FetchStep::Ask {
                stage: FetchStage::Status {
                    capacity,
                    time_to_empty_seconds,
                    voltage_now_uv: match last_snapshot {
                        Some(last) => last.voltage_now_uv,
                        None => 0,
                    },
                },
            },
        ),
{
}

/// Charging data that is missing or cannot be used does not stop a snapshot: no reply about
/// charging is an error, and without a usable number the next source is asked for, or the readings
/// are complete as they are.
pub proof fn law_charging_data_is_optional(
    stage: FetchStage,
    reply: Option<(Seq<char>, Option<Number>)>,
    last_snapshot: Option<Snapshot>,
    has_time_to_full_var: bool,
)
    ensures
        stage is TimeToFull || stage is AmpHours || stage is Current ==> step_after(
            stage,
            reply,
            last_snapshot,
            has_time_to_full_var,
        ) is Ok,
        reply is None || reply->Some_0.1 is None ==> match stage {
            FetchStage::TimeToFull { readings } => step_after(
                stage,
                reply,
                last_snapshot,
                has_time_to_full_var,
            ) == Ok::<FetchStep, Problem>(
                FetchStep::Ask { stage: FetchStage::AmpHours { readings } },
            ),
            FetchStage::AmpHours { readings } => step_after(
                stage,
                reply,
                last_snapshot,
                has_time_to_full_var,
            ) == Ok::<FetchStep, Problem>(FetchStep::Done { readings, ups_estimate: None }),
            FetchStage::Current { readings, .. } => step_after(
                stage,
                reply,
                last_snapshot,
                has_time_to_full_var,
            ) == Ok::<FetchStep, Problem>(FetchStep::Done { readings, ups_estimate: None }),
            _ => true,
        },
{
}

/// A number is a word of its own.
proof fn lemma_number_word(n: int, behind: Seq<char>)
    requires
        behind.len() > 0,
        is_space(behind[0]),
    ensures
        words(signed_decimal(n) + behind) == seq![signed_decimal(n)] + words(behind.skip(1)),
{
    let word = signed_decimal(n);
    let text = word + behind;
    let size: nat = if n < 0 { (-n) as nat } else { n as nat };
    lemma_decimal_reads_back(size);
    assert forall|i: int| 0 <= i < word.len() implies !is_space(#[trigger] text[i]) by {
        assert(text[i] == word[i]);
        if n < 0 {
            if i > 0 {
                assert(word[i] == decimal(size)[i - 1]);
                assert(is_digit(decimal(size)[i - 1]));
            }
        } else {
            assert(is_digit(decimal(size)[i]));
        }
    }
    assert(text[word.len() as int] == behind[0]);
    lemma_word_length_is(text, word.len());
    assert(!is_space(text[0]));
    assert(text.take(word.len() as int) =~= word);
    assert(text.skip(word.len() as int) =~= behind);
    assert(words(behind) == words(behind.skip(1)));
}

/// The kernel module finds the numbers of a snapshot on the line that it is sent: five, or six
/// with the charging time.
pub proof fn law_line_holds_the_numbers(snapshot: Snapshot, with_charge_time: bool)
    ensures
        ({
            let numbers = seq![
                signed_decimal(snapshot.capacity as int),
                signed_decimal(snapshot.voltage_now_uv as int),
                signed_decimal(snapshot.time_to_empty_seconds as int),
                signed_decimal(snapshot.status as int),
                signed_decimal(snapshot.ac_online as int),
            ];
            words(line_of(snapshot, with_charge_time)) == if with_charge_time {
                numbers.push(signed_decimal(snapshot.time_to_full_seconds as int))
            } else {
                numbers
            }
        }),
{
    reveal_strlit(" ");
    reveal_strlit("\n");
    let s = seq![' '];
    let end = seq!['\n'];
    let (n1, n2, n3, n4, n5, n6) = (
        snapshot.capacity as int,
        snapshot.voltage_now_uv as int,
        snapshot.time_to_empty_seconds as int,
        snapshot.status as int,
        snapshot.ac_online as int,
        snapshot.time_to_full_seconds as int,
    );
    let none = Seq::<char>::empty();
    let no_words = Seq::<Seq<char>>::empty();
    assert(end.skip(1) =~= none);
    assert(words(none) =~= no_words);
    let f = signed_decimal(n6) + end;
    let tail = if with_charge_time { s + f } else { end };
    let e = signed_decimal(n5) + tail;
    let d = signed_decimal(n4) + (s + e);
    let c = signed_decimal(n3) + (s + d);
    let b = signed_decimal(n2) + (s + c);
    let a = signed_decimal(n1) + (s + b);
    assert(line_of(snapshot, with_charge_time) =~= a);
    assert((s + b).skip(1) =~= b && (s + c).skip(1) =~= c && (s + d).skip(1) =~= d && (s
        + e).skip(1) =~= e && (s + f).skip(1) =~= f);
    lemma_number_word(n1, s + b);
    lemma_number_word(n2, s + c);
    lemma_number_word(n3, s + d);
    lemma_number_word(n4, s + e);
    lemma_number_word(n5, tail);
    lemma_number_word(n6, end);
    let front = seq![
        signed_decimal(n1),
        signed_decimal(n2),
        signed_decimal(n3),
        signed_decimal(n4),
        signed_decimal(n5),
    ];
    if with_charge_time {
        assert(words(a) =~= front.push(signed_decimal(n6)));
    } else {
        assert(words(a) =~= front);
    }
}

/// The line ends with a line feed and holds no other; single spaces part the numbers.
pub proof fn law_line_is_one_line(snapshot: Snapshot, with_charge_time: bool)
    ensures
        ({
            let s = seq![' '];
            let five = signed_decimal(snapshot.capacity as int) + s + signed_decimal(
                snapshot.voltage_now_uv as int,
            ) + s + signed_decimal(snapshot.time_to_empty_seconds as int) + s + signed_decimal(
                snapshot.status as int,
            ) + s + signed_decimal(snapshot.ac_online as int);
            line_of(snapshot, with_charge_time) == if with_charge_time {
                five + s + signed_decimal(snapshot.time_to_full_seconds as int) + seq!['\n']
            } else {
                five + seq!['\n']
            }
        }),
{
    reveal_strlit(" ");
    reveal_strlit("\n");
    assert(" "@ =~= seq![' ']);
    assert("\n"@ =~= seq!['\n']);
    let s = seq![' '];
    let five = signed_decimal(snapshot.capacity as int) + s + signed_decimal(
        snapshot.voltage_now_uv as int,
    ) + s + signed_decimal(snapshot.time_to_empty_seconds as int) + s + signed_decimal(
        snapshot.status as int,
    ) + s + signed_decimal(snapshot.ac_online as int);
    if with_charge_time {
        assert(line_of(snapshot, with_charge_time) =~= five + s + signed_decimal(
            snapshot.time_to_full_seconds as int,
        ) + seq!['\n']);
    } else {
        assert(line_of(snapshot, with_charge_time) =~= five + seq!['\n']);
    }
}

/// Different numbers have different decimal forms.
pub proof fn law_numbers_are_distinct(a: int, b: int)
    requires
        signed_decimal(a) == signed_decimal(b),
    ensures
        a == b,
{
    let (x, y): (nat, nat) = (
        if a < 0 {
            (-a) as nat
        } else {
            a as nat
        },
        if b < 0 {
            (-b) as nat
        } else {
            b as nat
        },
    );
    lemma_decimal_reads_back(x);
    lemma_decimal_reads_back(y);
    assert(is_digit(decimal(x)[0]));
    assert(is_digit(decimal(y)[0]));
    if a < 0 {
        assert(signed_decimal(a).skip(1) =~= decimal(x));
        assert(signed_decimal(a)[0] == '-');
    }
    if b < 0 {
        assert(signed_decimal(b).skip(1) =~= decimal(y));
        assert(signed_decimal(b)[0] == '-');
    }
}

} // verus!
