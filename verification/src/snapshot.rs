//! Snapshots of the battery: how one is read from the UPS, variable by variable, and how it is
//! written to the kernel module.

use vstd::arithmetic::power2::*;
use vstd::prelude::*;

use crate::charging::charging_estimate;
use crate::charging::observed;
use crate::charging::updated;
use crate::charging::without_stale;
use crate::charging::ChargeEstimate;
use crate::charging::ChargeSource;
use crate::charging::ChargingEstimator;
use crate::charging::ChargingMemory;
use crate::charging::LearnedRate;
use crate::failure::bad_data;
use crate::failure::invalid_data;
use crate::failure::Failure;
use crate::failure::Problem;
use crate::magnitude::lemma_finite_units;
use crate::magnitude::lemma_order;
use crate::magnitude::one;
use crate::magnitude::overflow;
use crate::magnitude::Magnitude;
use crate::number::integer_within;
use crate::number::to_integer_within;
use crate::number::Number;
use crate::protocol::map_status;
use crate::protocol::required_value;
use crate::protocol::status_meaning;
use crate::protocol::STATUS_CHARGING;
use crate::rounding::lemma_rounded_exact;
use crate::rounding::lemma_rounded_monotone;
use crate::rounding::rounded;
use crate::text::chars_of;
use crate::text::is_white;
use crate::text::join3;
use crate::text::push_signed;
use crate::text::signed_decimal;
use crate::text::white;

verus! {

/// One reading of the battery, as the kernel module takes it.
#[derive(Clone, Copy, Debug, PartialEq, Eq, Structural)]
pub struct Snapshot {
    pub capacity: i32,
    pub voltage_now_uv: i32,
    pub time_to_empty_seconds: i32,
    pub status: i32,
    pub ac_online: i32,
    pub time_to_full_seconds: i32,
    pub charge_source: Option<ChargeSource>,
}

impl Snapshot {
    /// A capacity is a percentage, and the other measured values are not negative.
    pub open spec fn wf(self) -> bool {
        &&& 0 <= self.capacity <= 100
        &&& 0 <= self.voltage_now_uv
        &&& 0 <= self.time_to_empty_seconds
    }
}

/// What a snapshot holds before the charging time is estimated.
#[derive(Clone, Copy, Debug, PartialEq, Eq, Structural)]
pub struct Readings {
    pub capacity: i32,
    pub voltage_now_uv: i32,
    pub time_to_empty_seconds: i32,
    pub status: i32,
    pub ac_online: i32,
}

/// The value of a variable: its text, and the number that the text stands for, if it does.
#[derive(Debug, PartialEq, Eq)]
pub struct Reply {
    pub text: String,
    pub number: Option<Number>,
}

impl Reply {
    pub open spec fn wf(self) -> bool {
        self.number matches Some(number) ==> number.wf()
    }
}

/// The variable that is asked for next, with what is known so far.
#[derive(Clone, Copy, Debug, PartialEq, Eq, Structural)]
pub enum FetchStage {
    Charge,
    Runtime { capacity: i32 },
    Voltage { capacity: i32, time_to_empty_seconds: i32 },
    Status { capacity: i32, time_to_empty_seconds: i32, voltage_now_uv: i32 },
    TimeToFull { readings: Readings },
    AmpHours { readings: Readings },
    Current { readings: Readings, amp_hours: Magnitude },
}

/// What follows a reply: another variable to ask for, or all there is to know.
#[derive(Debug, PartialEq, Eq)]
pub enum FetchStep {
    Ask { stage: FetchStage },
    Done { readings: Readings, ups_estimate: Option<(Magnitude, ChargeSource)> },
}

/// A number times a scale, rounded to an integer, ties away from zero, where the product lies
/// within the limits.
pub open spec fn scaled_integer(
    value: Seq<char>,
    number: Option<Number>,
    scale: u32,
    minimum: i32,
    maximum: i32,
    variable: Seq<char>,
) -> Result<i32, Problem> {
    match number {
        None => Err(bad_data(variable + " is not numeric: "@ + value)),
        Some(Number::Finite { negative, magnitude }) => {
            let product = rounded(magnitude.units() * (scale as nat * one()), one());
            if product < overflow() && integer_within(negative, product, minimum, maximum)
                is Some {
                Ok(integer_within(negative, product, minimum, maximum)->Some_0 as i32)
            } else {
                Err(bad_data(variable + " is outside the supported range: "@ + value))
            }
        },
        Some(_) => Err(bad_data(variable + " is outside the supported range: "@ + value)),
    }
}

/// Scales and rounds a number; `value` is its text.
pub fn parse_scaled_integer(
    value: &str,
    number: Option<Number>,
    scale: u32,
    minimum: i32,
    maximum: i32,
    variable: &str,
) -> (result: Result<i32, Failure>)
    requires
        number matches Some(n) ==> n.wf(),
    ensures
        match result {
            Ok(integer) => scaled_integer(value@, number, scale, minimum, maximum, variable@)
                == Ok::<i32, Problem>(integer) && minimum <= integer <= maximum,
            Err(failure) => scaled_integer(value@, number, scale, minimum, maximum, variable@)
                == Err::<i32, Problem>(failure@),
        },
{
    let number: Number = match number {
        Some(number) => number,
        None => {
            return Err(invalid_data(join3(variable, " is not numeric: ", value)));
        },
    };
    let found: Option<i32> = match number {
        Number::Finite { negative, magnitude } => {
            match magnitude.multiply(Magnitude::from_integer(scale as u128)) {
                Some(product) => {
                    proof {
                        lemma_finite_units(product);
                    }
                    to_integer_within(negative, product, minimum, maximum)
                },
                None => None,
            }
        },
        _ => None,
    };
    match found {
        Some(integer) => Ok(integer),
        None => Err(
            invalid_data(join3(variable, " is outside the supported range: ", value)),
        ),
    }
}

/// The text that is sent for a snapshot: five numbers, and the charging time where the module
/// takes it.
pub open spec fn line_of(snapshot: Snapshot, with_charge_time: bool) -> Seq<char> {
    signed_decimal(snapshot.capacity as int) + " "@ + signed_decimal(snapshot.voltage_now_uv as int)
        + " "@ + signed_decimal(snapshot.time_to_empty_seconds as int) + " "@ + signed_decimal(
        snapshot.status as int,
    ) + " "@ + signed_decimal(snapshot.ac_online as int) + (if with_charge_time {
        " "@ + signed_decimal(snapshot.time_to_full_seconds as int)
    } else {
        Seq::empty()
    }) + "\n"@
}

/// The text that is sent for a snapshot.
pub fn snapshot_line(snapshot: &Snapshot, with_charge_time: bool) -> (line: String)
    ensures
        line@ == line_of(*snapshot, with_charge_time),
{
    let mut line: String = String::new();
    push_signed(&mut line, snapshot.capacity);
    line.append(" ");
    push_signed(&mut line, snapshot.voltage_now_uv);
    line.append(" ");
    push_signed(&mut line, snapshot.time_to_empty_seconds);
    line.append(" ");
    push_signed(&mut line, snapshot.status);
    line.append(" ");
    push_signed(&mut line, snapshot.ac_online);
    if with_charge_time {
        line.append(" ");
        push_signed(&mut line, snapshot.time_to_full_seconds);
    }
    line.append("\n");
    assert(line@ =~= line_of(*snapshot, with_charge_time));
    line
}

/// A text without the white space around it.
pub open spec fn trimmed(text: Seq<char>) -> Seq<char>
    decreases text.len(),
{
    if text.len() > 0 && is_white(text[0]) {
        trimmed(text.skip(1))
    } else if text.len() > 0 && is_white(text.last()) {
        trimmed(text.drop_last())
    } else {
        text
    }
}

/// Whether the protocol version that the kernel module reports takes the charging time.
pub fn version_takes_charge_time(version: &str) -> (takes: bool)
    ensures
        takes == (trimmed(version@) == seq!['2']),
{
    let chars: Vec<char> = chars_of(version);
    let mut start: usize = 0;
    let mut end: usize = chars.len();
    assert(chars@.subrange(0, end as int) =~= chars@);
    while start < end && white(chars[start])
        invariant
            start <= end == chars.len(),
            trimmed(chars@.subrange(start as int, end as int)) == trimmed(version@),
        decreases end - start,
    {
        let ghost inner = chars@.subrange(start as int, end as int);
        assert(inner.skip(1) =~= chars@.subrange(start + 1, end as int));
        start = start + 1;
    }
    while start < end && white(chars[end - 1])
        invariant
            start <= end <= chars.len(),
            start < end ==> !is_white(chars@[start as int]),
            trimmed(chars@.subrange(start as int, end as int)) == trimmed(version@),
        decreases end - start,
    {
        let ghost inner = chars@.subrange(start as int, end as int);
        assert(inner.drop_last() =~= chars@.subrange(start as int, end - 1));
        end = end - 1;
    }
    let ghost inner = chars@.subrange(start as int, end as int);
    assert(trimmed(version@) == inner);
    let takes: bool = end - start == 1 && chars[start] == '2';
    assert(takes == (inner =~= seq!['2']));
    takes
}

impl Readings {
    /// A capacity is a percentage, and the other values are not negative.
    pub open spec fn wf(self) -> bool {
        &&& 0 <= self.capacity <= 100
        &&& 0 <= self.voltage_now_uv
        &&& 0 <= self.time_to_empty_seconds
    }

    /// Whether the battery is charging and not yet full, so that its charging time is of interest.
    pub open spec fn is_charging(self) -> bool {
        self.status == STATUS_CHARGING && self.ac_online == 1 && self.capacity < 100
    }
}

impl FetchStage {
    pub open spec fn wf(self) -> bool {
        match self {
            FetchStage::Charge => true,
            FetchStage::Runtime { capacity } => 0 <= capacity <= 100,
            FetchStage::Voltage { capacity, time_to_empty_seconds } => 0 <= capacity <= 100 && 0
                <= time_to_empty_seconds,
            FetchStage::Status { capacity, time_to_empty_seconds, voltage_now_uv } => 0 <= capacity
                <= 100 && 0 <= time_to_empty_seconds && 0 <= voltage_now_uv,
            FetchStage::TimeToFull { readings } => readings.wf() && readings.is_charging(),
            FetchStage::AmpHours { readings } => readings.wf() && readings.is_charging(),
            FetchStage::Current { readings, amp_hours } => readings.wf() && readings.is_charging()
                && amp_hours.wf() && amp_hours.units() > 0,
        }
    }

    /// How many variables may still be asked for.
    pub open spec fn remaining(self) -> nat {
        match self {
            FetchStage::Charge => 7,
            FetchStage::Runtime { .. } => 6,
            FetchStage::Voltage { .. } => 5,
            FetchStage::Status { .. } => 4,
            FetchStage::TimeToFull { .. } => 3,
            FetchStage::AmpHours { .. } => 2,
            FetchStage::Current { .. } => 1,
        }
    }

    /// The name of the variable that is asked for.
    pub open spec fn variable_name(self, time_to_full_var: Seq<char>) -> Seq<char> {
        match self {
            FetchStage::Charge => "battery.charge"@,
            FetchStage::Runtime { .. } => "battery.runtime"@,
            FetchStage::Voltage { .. } => "battery.voltage"@,
            FetchStage::Status { .. } => "ups.status"@,
            FetchStage::TimeToFull { .. } => time_to_full_var,
            FetchStage::AmpHours { .. } => "battery.capacity"@,
            FetchStage::Current { .. } => "battery.current"@,
        }
    }

    /// The name of the variable that is asked for; `time_to_full_var` is the configured one.
    pub fn variable(&self, time_to_full_var: &str) -> (name: String)
        ensures
            name@ == self.variable_name(time_to_full_var@),
    {
        match self {
            FetchStage::Charge => "battery.charge".to_owned(),
            FetchStage::Runtime { .. } => "battery.runtime".to_owned(),
            FetchStage::Voltage { .. } => "battery.voltage".to_owned(),
            FetchStage::Status { .. } => "ups.status".to_owned(),
            FetchStage::TimeToFull { .. } => time_to_full_var.to_owned(),
            FetchStage::AmpHours { .. } => "battery.capacity".to_owned(),
            FetchStage::Current { .. } => "battery.current".to_owned(),
        }
    }
}

/// A value of the UPS as contracts speak of it.
pub open spec fn reply_view(reply: Option<Reply>) -> Option<(Seq<char>, Option<Number>)> {
    match reply {
        Some(r) => Some((r.text@, r.number)),
        None => None,
    }
}

/// A value that the UPS need not have: without it, the last known value counts.
pub open spec fn optional_integer(
    reply: Option<(Seq<char>, Option<Number>)>,
    scale: u32,
    variable: Seq<char>,
    last_known: i32,
) -> Result<i32, Problem> {
    match reply {
        Some((text, number)) => scaled_integer(text, number, scale, 0, i32::MAX, variable),
        None => Ok(last_known),
    }
}

/// The time in which a charging current fills what is missing, in seconds: the capacity in ampere
/// hours times the missing share, over the current. Each operation rounds; `None` where one of
/// them leaves the finite values or the result is zero.
pub open spec fn current_estimate(amp_hours: nat, current: nat, capacity: i32) -> Option<nat> {
    let ampere_seconds = rounded((3600 * one()) * amp_hours, one());
    let scaled = rounded(ampere_seconds * ((100 - capacity) as nat * one()), one());
    let divisor = rounded((100 * one()) * current, one());
    let seconds = rounded(scaled * one(), divisor);
    if ampere_seconds < overflow() && scaled < overflow() && divisor < overflow() && 0 < seconds
        < overflow() {
        Some(seconds)
    } else {
        None
    }
}

/// Estimates the charging time from the capacity of the battery and its charging current.
fn time_from_current(amp_hours: Magnitude, current: Magnitude, capacity: i32) -> (result: Option<
    Magnitude,
>)
    requires
        amp_hours.wf(),
        current.wf(),
        current.units() > 0,
        0 <= capacity < 100,
    ensures
        match result {
            Some(seconds) => seconds.wf() && current_estimate(
                amp_hours.units(),
                current.units(),
                capacity,
            ) == Some(seconds.units()),
            None => current_estimate(amp_hours.units(), current.units(), capacity) is None,
        },
{
    let ghost o = one();
    proof {
        lemma_pow2_pos(1074);
    }
    let hour: Magnitude = Magnitude::from_integer(3600);
    let points: Magnitude = Magnitude::from_integer((100 - capacity) as u128);
    let hundred: Magnitude = Magnitude::from_integer(100);
    let ampere_seconds: Magnitude = match hour.multiply(amp_hours) {
        Some(product) => product,
        None => {
            return None;
        },
    };
    let scaled: Magnitude = match ampere_seconds.multiply(points) {
        Some(product) => product,
        None => {
            return None;
        },
    };
    let divisor: Magnitude = match hundred.multiply(current) {
        Some(product) => product,
        None => {
            return None;
        },
    };
    proof {
        lemma_finite_units(ampere_seconds);
        lemma_finite_units(scaled);
        lemma_finite_units(divisor);
        // A product with a hundred is not zero.
        let n = hundred.units() * current.units();
        assert(o <= n) by (nonlinear_arith)
            requires
                n == (100 * o) * current.units(),
                current.units() >= 1,
        ;
        lemma2_to64();
        lemma2_to64_rest();
        lemma_rounded_exact(1, 0, o);
        assert((1 * pow2(0)) * o == o) by (nonlinear_arith)
            requires
                pow2(0) == 1,
        ;
        assert(o * o <= n * o) by (nonlinear_arith)
            requires
                o <= n,
        ;
        lemma_rounded_monotone(o, o, n, o);
    }
    match scaled.divide(divisor) {
        Some(seconds) => {
            proof {
                lemma_finite_units(seconds);
            }
            if seconds.is_zero() {
                None
            } else {
                Some(seconds)
            }
        },
        None => None,
    }
}

/// What follows a reply to the variable of a stage.
pub open spec fn step_after(
    stage: FetchStage,
    reply: Option<(Seq<char>, Option<Number>)>,
    last_snapshot: Option<Snapshot>,
    has_time_to_full_var: bool,
) -> Result<FetchStep, Problem> {
    let number: Option<Number> = match reply {
        Some((_, number)) => number,
        None => None,
    };
    match stage {
        FetchStage::Charge => match reply {
            None => Err(bad_data("required NUT variable is not available: "@ + "battery.charge"@)),
            Some((text, number)) => match scaled_integer(
                text,
                number,
                1,
                0,
                100,
                "battery.charge"@,
            ) {
                Ok(capacity) => Ok(FetchStep::Ask { stage: FetchStage::Runtime { capacity } }),
                Err(problem) => Err(problem),
            },
        },
        FetchStage::Runtime { capacity } => match optional_integer(
            reply,
            1,
            "battery.runtime"@,
            match last_snapshot {
                Some(last) => last.time_to_empty_seconds,
                None => 0,
            },
        ) {
            Ok(time_to_empty_seconds) => Ok(
                FetchStep::Ask { stage: FetchStage::Voltage { capacity, time_to_empty_seconds } },
            ),
            Err(problem) => Err(problem),
        },
        FetchStage::Voltage { capacity, time_to_empty_seconds } => match optional_integer(
            reply,
            1_000_000,
            "battery.voltage"@,
            match last_snapshot {
                Some(last) => last.voltage_now_uv,
                None => 0,
            },
        ) {
            Ok(voltage_now_uv) => Ok(
                FetchStep::Ask {
                    stage: FetchStage::Status { capacity, time_to_empty_seconds, voltage_now_uv },
                },
            ),
            Err(problem) => Err(problem),
        },
        FetchStage::Status { capacity, time_to_empty_seconds, voltage_now_uv } => match reply {
            None => Err(bad_data("required NUT variable is not available: "@ + "ups.status"@)),
            Some((text, _)) => match status_meaning(text, capacity) {
                Err(message) => Err(bad_data(message)),
                Ok((status, ac_online)) => {
                    let readings = Readings {
                        capacity,
                        voltage_now_uv,
                        time_to_empty_seconds,
                        status,
                        ac_online,
                    };
                    if !readings.is_charging() {
                        Ok(FetchStep::Done { readings, ups_estimate: None })
                    } else if has_time_to_full_var {
                        Ok(FetchStep::Ask { stage: FetchStage::TimeToFull { readings } })
                    } else {
                        Ok(FetchStep::Ask { stage: FetchStage::AmpHours { readings } })
                    }
                },
            },
        },
        FetchStage::TimeToFull { readings } => match positive_of(number) {
            Some(seconds) => Ok(
                FetchStep::Done {
                    readings,
                    ups_estimate: Some((seconds, ChargeSource::UpsTime)),
                },
            ),
            None => Ok(FetchStep::Ask { stage: FetchStage::AmpHours { readings } }),
        },
        FetchStage::AmpHours { readings } => match positive_of(number) {
            Some(amp_hours) => Ok(
                FetchStep::Ask { stage: FetchStage::Current { readings, amp_hours } },
            ),
            None => Ok(FetchStep::Done { readings, ups_estimate: None }),
        },
        FetchStage::Current { readings, amp_hours } => {
            let seconds: Option<Magnitude> = match nonzero_of(number) {
                Some(current) => match current_estimate(
                    amp_hours.units(),
                    current.units(),
                    readings.capacity,
                ) {
                    Some(units) => Some(value_of(units)),
                    None => None,
                },
                None => None,
            };
            Ok(
                FetchStep::Done {
                    readings,
                    ups_estimate: match seconds {
                        Some(s) => Some((s, ChargeSource::UpsCurrent)),
                        None => None,
                    },
                },
            )
        },
    }
}

/// A number that is finite and greater than zero.
pub open spec fn positive_of(number: Option<Number>) -> Option<Magnitude> {
    match number {
        Some(n) => n.spec_positive(),
        None => None,
    }
}

/// The size of a number that is finite and not zero.
pub open spec fn nonzero_of(number: Option<Number>) -> Option<Magnitude> {
    match number {
        Some(n) => n.spec_nonzero_size(),
        None => None,
    }
}

/// The value with a number of units.
pub open spec fn value_of(units: nat) -> Magnitude {
    choose|value: Magnitude| value.wf() && #[trigger] value.units() == units
}

/// No two values have the same number of units.
pub proof fn lemma_value_of(value: Magnitude)
    requires
        value.wf(),
    ensures
        value_of(value.units()) == value,
{
    let found = value_of(value.units());
    assert(found.wf() && found.units() == value.units());
    lemma_order(found, value);
}

/// Reads an integer that the UPS need not have.
fn optional_scaled_integer(reply: &Option<Reply>, scale: u32, variable: &str, last_known: i32) -> (
result: Result<i32, Failure>)
    requires
        reply matches Some(r) ==> r.wf(),
    ensures
        match result {
            Ok(integer) => optional_integer(reply_view(*reply), scale, variable@, last_known)
                == Ok::<i32, Problem>(integer) && (last_known >= 0 ==> integer >= 0),
            Err(failure) => optional_integer(reply_view(*reply), scale, variable@, last_known)
                == Err::<i32, Problem>(failure@),
        },
{
    match reply {
        Some(r) => parse_scaled_integer(r.text.as_str(), r.number, scale, 0, i32::MAX, variable),
        None => Ok(last_known),
    }
}

/// Takes the reply to the variable of a stage and says what to do next. A reply of `None` means
/// that the UPS does not have the variable.
pub fn advance(
    stage: FetchStage,
    reply: Option<Reply>,
    last_snapshot: Option<Snapshot>,
    has_time_to_full_var: bool,
) -> (result: Result<FetchStep, Failure>)
    requires
        stage.wf(),
        reply matches Some(r) ==> r.wf(),
        last_snapshot matches Some(last) ==> last.wf(),
    ensures
        match result {
            Ok(step) => step_after(stage, reply_view(reply), last_snapshot, has_time_to_full_var)
                == Ok::<FetchStep, Problem>(step),
            Err(failure) => step_after(
                stage,
                reply_view(reply),
                last_snapshot,
                has_time_to_full_var,
            ) == Err::<FetchStep, Problem>(failure@),
        },
        result matches Ok(FetchStep::Ask { stage: next }) ==> next.wf() && next.remaining()
            < stage.remaining(),
        result matches Ok(FetchStep::Done { readings, ups_estimate }) ==> readings.wf() && (
        ups_estimate matches Some((seconds, _)) ==> seconds.wf()),
{
    let number: Option<Number> = match &reply {
        Some(r) => r.number,
        None => None,
    };
    match stage {
        FetchStage::Charge => {
            let value: Option<String> = match reply {
                Some(r) => Some(r.text),
                None => None,
            };
            let text: String = match required_value(value, "battery.charge") {
                Ok(text) => text,
                Err(failure) => {
                    return Err(failure);
                },
            };
            match parse_scaled_integer(text.as_str(), number, 1, 0, 100, "battery.charge") {
                Ok(capacity) => Ok(FetchStep::Ask { stage: FetchStage::Runtime { capacity } }),
                Err(failure) => Err(failure),
            }
        },
        FetchStage::Runtime { capacity } => {
            let last_known: i32 = match last_snapshot {
                Some(last) => last.time_to_empty_seconds,
                None => 0,
            };
            match optional_scaled_integer(&reply, 1, "battery.runtime", last_known) {
                Ok(time_to_empty_seconds) => Ok(
                    FetchStep::Ask {
                        stage: FetchStage::Voltage { capacity, time_to_empty_seconds },
                    },
                ),
                Err(failure) => Err(failure),
            }
        },
        FetchStage::Voltage { capacity, time_to_empty_seconds } => {
            let last_known: i32 = match last_snapshot {
                Some(last) => last.voltage_now_uv,
                None => 0,
            };
            match optional_scaled_integer(&reply, 1_000_000, "battery.voltage", last_known) {
                Ok(voltage_now_uv) => Ok(
                    FetchStep::Ask {
                        stage: FetchStage::Status {
                            capacity,
                            time_to_empty_seconds,
                            voltage_now_uv,
                        },
                    },
                ),
                Err(failure) => Err(failure),
            }
        },
        FetchStage::Status { capacity, time_to_empty_seconds, voltage_now_uv } => {
            let value: Option<String> = match reply {
                Some(r) => Some(r.text),
                None => None,
            };
            let text: String = match required_value(value, "ups.status") {
                Ok(text) => text,
                Err(failure) => {
                    return Err(failure);
                },
            };
            let (status, ac_online): (i32, i32) = match map_status(text.as_str(), capacity) {
                Ok(found) => found,
                Err(failure) => {
                    return Err(failure);
                },
            };
            let readings: Readings = Readings {
                capacity,
                voltage_now_uv,
                time_to_empty_seconds,
                status,
                ac_online,
            };
            if !(status == STATUS_CHARGING && ac_online == 1 && capacity < 100) {
                Ok(FetchStep::Done { readings, ups_estimate: None })
            } else if has_time_to_full_var {
                Ok(FetchStep::Ask { stage: FetchStage::TimeToFull { readings } })
            } else {
                Ok(FetchStep::Ask { stage: FetchStage::AmpHours { readings } })
            }
        },
        FetchStage::TimeToFull { readings } => {
            let positive: Option<Magnitude> = match number {
                Some(n) => n.positive(),
                None => None,
            };
            match positive {
                Some(seconds) => Ok(
                    FetchStep::Done {
                        readings,
                        ups_estimate: Some((seconds, ChargeSource::UpsTime)),
                    },
                ),
                None => Ok(FetchStep::Ask { stage: FetchStage::AmpHours { readings } }),
            }
        },
        FetchStage::AmpHours { readings } => {
            let positive: Option<Magnitude> = match number {
                Some(n) => n.positive(),
                None => None,
            };
            match positive {
                Some(amp_hours) => Ok(
                    FetchStep::Ask { stage: FetchStage::Current { readings, amp_hours } },
                ),
                None => Ok(FetchStep::Done { readings, ups_estimate: None }),
            }
        },
        FetchStage::Current { readings, amp_hours } => {
            let size: Option<Magnitude> = match number {
                Some(n) => n.nonzero_size(),
                None => None,
            };
            let seconds: Option<Magnitude> = match size {
                Some(current) => time_from_current(amp_hours, current, readings.capacity),
                None => None,
            };
            proof {
                if let Some(s) = seconds {
                    lemma_value_of(s);
                }
            }
            match seconds {
                Some(s) => Ok(
                    FetchStep::Done {
                        readings,
                        ups_estimate: Some((s, ChargeSource::UpsCurrent)),
                    },
                ),
                None => Ok(FetchStep::Done { readings, ups_estimate: None }),
            }
        },
    }
}

/// The snapshot of what was read and of the estimated charging time.
pub open spec fn snapshot_of(readings: Readings, estimate: ChargeEstimate) -> Snapshot {
    Snapshot {
        capacity: readings.capacity,
        voltage_now_uv: readings.voltage_now_uv,
        time_to_empty_seconds: readings.time_to_empty_seconds,
        status: readings.status,
        ac_online: readings.ac_online,
        time_to_full_seconds: estimate.seconds,
        charge_source: estimate.source,
    }
}

/// UPS data as the estimator takes it.
pub open spec fn offered(ups_estimate: Option<(Magnitude, ChargeSource)>) -> Option<
    (Number, ChargeSource),
> {
    match ups_estimate {
        Some((seconds, source)) => Some(
            (Number::Finite { negative: false, magnitude: seconds }, source),
        ),
        None => None,
    }
}

/// Completes a snapshot with an estimate of the charging time. Besides the snapshot, the result
/// is a rate to write to the state file.
pub fn complete_snapshot(
    charging: &mut ChargingEstimator,
    readings: Readings,
    ups_estimate: Option<(Magnitude, ChargeSource)>,
    checked_at: i128,
    now: u128,
    wall: i128,
) -> (result: (Snapshot, Option<LearnedRate>))
    requires
        old(charging).wf(),
        readings.wf(),
        ups_estimate matches Some((seconds, _)) ==> seconds.wf(),
    ensures
        final(charging).wf(),
        final(charging).same_settings(*old(charging)),
        result.0.wf(),
        result.0.capacity == readings.capacity,
        result.0.voltage_now_uv == readings.voltage_now_uv,
        result.0.time_to_empty_seconds == readings.time_to_empty_seconds,
        result.0.status == readings.status,
        result.0.ac_online == readings.ac_online,
        updated(
            old(charging).memory,
            final(charging).memory,
            (
                ChargeEstimate {
                    seconds: result.0.time_to_full_seconds,
                    source: result.0.charge_source,
                },
                result.1,
            ),
            readings.capacity,
            readings.status,
            readings.ac_online,
            match ups_estimate {
                Some((seconds, source)) => Some(
                    (Number::Finite { negative: false, magnitude: seconds }, source),
                ),
                None => None,
            },
            checked_at,
            now,
            wall,
            old(charging).max_sample_gap,
            old(charging).fallback_full_seconds,
        ),
        readings.is_charging() ==> {
            &&& observed(
                without_stale(old(charging).memory, checked_at),
                final(charging).memory,
                result.1,
                readings.capacity,
                now,
                wall,
                old(charging).max_sample_gap,
            )
            &&& result.0 == snapshot_of(
                readings,
                charging_estimate(
                    offered(ups_estimate),
                    final(charging).memory.learned,
                    old(charging).fallback_full_seconds,
                    readings.capacity,
                ),
            )
        },
        !readings.is_charging() ==> {
            &&& final(charging).memory == (ChargingMemory {
                session: None,
                ..old(charging).memory
            })
            &&& result.0 == snapshot_of(readings, ChargeEstimate { seconds: 0, source: None })
            &&& result.1 is None
        },
{
    let data: Option<(Number, ChargeSource)> = match ups_estimate {
        Some((seconds, source)) => Some(
            (Number::Finite { negative: false, magnitude: seconds }, source),
        ),
        None => None,
    };
    let (estimate, record): (ChargeEstimate, Option<LearnedRate>) = charging.update(
        readings.capacity,
        readings.status,
        readings.ac_online,
        data,
        checked_at,
        now,
        wall,
    );
    (
        Snapshot {
            capacity: readings.capacity,
            voltage_now_uv: readings.voltage_now_uv,
            time_to_empty_seconds: readings.time_to_empty_seconds,
            status: readings.status,
            ac_online: readings.ac_online,
            time_to_full_seconds: estimate.seconds,
            charge_source: estimate.source,
        },
        record,
    )
}

} // verus!
