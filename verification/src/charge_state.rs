//! The file in which the learned charging rate outlives the daemon.

use vstd::prelude::*;
use vstd::utf8::*;

use crate::charging::is_valid_rate;
use crate::charging::valid_rate;
use crate::charging::LearnedRate;
use crate::charging::CACHE_MAX_AGE;
use crate::charging::NANOS_PER_SECOND;
use crate::failure::bad_data;
use crate::failure::invalid_data;
use crate::failure::Failure;
use crate::failure::FailureKind;
use crate::failure::Problem;
use crate::number::Number;
use crate::paths::file_name;
use crate::paths::final_name;
use crate::text::after_prefix;
use crate::text::byte_length;
use crate::text::bytes_in;
use crate::text::decimal;
use crate::text::lines;
use crate::text::parse_unsigned;
use crate::text::push_decimal;
use crate::text::same_text;
use crate::text::split_lines;
use crate::text::text_after;
use crate::text::unsigned_value;
use crate::text::views;

verus! {

/// The largest state file, in bytes.
pub const MAX_STATE_BYTES: usize = 4096;

/// How many names are tried for the temporary file.
pub const MAX_ATTEMPTS: u32 = 8;

/// The hexadecimal digit of a number below sixteen.
pub open spec fn hex_digit(d: u8) -> char {
    if d < 10 {
        ('0' as nat + d) as char
    } else {
        ('a' as nat + d - 10) as char
    }
}

fn hex_char(d: u8) -> (c: char)
    requires
        d < 16,
    ensures
        c == hex_digit(d),
{
    if d < 10 {
        (48 + d) as char
    } else {
        (87 + d) as char
    }
}

/// Two hexadecimal digits for each byte.
pub open spec fn hex(bytes: Seq<u8>) -> Seq<char> {
    Seq::new(
        2 * bytes.len(),
        |i: int|
            if i % 2 == 0 {
                hex_digit(bytes[i / 2] / 16)
            } else {
                hex_digit(bytes[i / 2] % 16)
            },
    )
}

/// The key under which the rate of a UPS is kept: the bytes of its identity in hexadecimal.
pub open spec fn key_of(identity: Seq<char>) -> Seq<char> {
    hex(encode_utf8(identity))
}

/// The key under which the rate of a UPS is kept.
pub fn identity_key(identity: &str) -> (key: String)
    ensures
        key@ == key_of(identity@),
{
    let bytes: &[u8] = identity.as_bytes();
    let mut key: String = String::new();
    let mut i: usize = 0;
    assert(key@ =~= hex(bytes@.take(0)));
    while i < bytes.len()
        invariant
            i <= bytes.len(),
            bytes@ == encode_utf8(identity@),
            key@ == hex(bytes@.take(i as int)),
        decreases bytes.len() - i,
    {
        let byte: u8 = bytes[i];
        key.push(hex_char(byte / 16));
        key.push(hex_char(byte % 16));
        i = i + 1;
        assert(key@ =~= hex(bytes@.take(i as int)));
    }
    assert(bytes@.take(i as int) =~= bytes@);
    key
}

/// The text of the state file.
pub open spec fn state_content(identity: Seq<char>, seconds: nat, rate_text: Seq<char>) -> Seq<
    char,
> {
    "nut-power-bridge-charge-rate-v1\n"@ + "identity="@ + key_of(identity) + "\n"@ + "timestamp="@
        + decimal(seconds) + "\n"@ + "seconds_per_percent="@ + rate_text + "\n"@
}

/// The text of the state file for a rate, or why there is none.
pub open spec fn state_result(identity: Seq<char>, rate_text: Seq<char>, wall: i128) -> Result<
    Seq<char>,
    Problem,
> {
    if wall < 0 {
        Err(bad_data("second time provided was later than self"@))
    } else {
        let content = state_content(identity, wall as nat / NANOS_PER_SECOND as nat, rate_text);
        if byte_length(content) > MAX_STATE_BYTES {
            Err(
                Problem {
                    kind: FailureKind::InvalidInput,
                    message: "Charging state exceeds the size limit"@,
                },
            )
        } else {
            Ok(content)
        }
    }
}

/// The text of the state file for a rate in decimal that was learned at a wall time.
pub fn state_text(identity: &str, rate_text: &str, wall: i128) -> (result: Result<String, Failure>)
    ensures
        match result {
            Ok(text) => state_result(identity@, rate_text@, wall) == Ok::<Seq<char>, Problem>(
                text@,
            ),
            Err(failure) => state_result(identity@, rate_text@, wall) == Err::<
                Seq<char>,
                Problem,
            >(failure@),
        },
{
    if wall < 0 {
        return Err(invalid_data("second time provided was later than self".to_owned()));
    }
    let mut text: String = "nut-power-bridge-charge-rate-v1\n".to_owned();
    text.append("identity=");
    text.append(identity_key(identity).as_str());
    text.append("\n");
    text.append("timestamp=");
    push_decimal(&mut text, wall as u128 / NANOS_PER_SECOND as u128);
    text.append("\n");
    text.append("seconds_per_percent=");
    text.append(rate_text);
    text.append("\n");
    if bytes_in(text.as_str()) > MAX_STATE_BYTES {
        return Err(
            Failure {
                kind: FailureKind::InvalidInput,
                message: "Charging state exceeds the size limit".to_owned(),
            },
        );
    }
    Ok(text)
}

/// When the rate in a state file was learned, in seconds since the epoch, and the rate in decimal;
/// `None` where the file is not one for this identity.
pub open spec fn state_fields(text: Seq<char>, identity: Seq<char>) -> Option<(u64, Seq<char>)> {
    let found = lines(text);
    if byte_length(text) <= MAX_STATE_BYTES && found.len() == 4 && found[0]
        == "nut-power-bridge-charge-rate-v1"@ && after_prefix(found[1], "identity="@) == Some(
        key_of(identity),
    ) {
        match (
            after_prefix(found[2], "timestamp="@),
            after_prefix(found[3], "seconds_per_percent="@),
        ) {
            (Some(timestamp), Some(rate)) => match unsigned_value(timestamp) {
                Some(seconds) => Some((seconds, rate)),
                None => None,
            },
            _ => None,
        }
    } else {
        None
    }
}

/// Reads a state file.
pub fn read_state(text: &str, identity: &str) -> (result: Option<(u64, String)>)
    ensures
        match result {
            Some((seconds, rate)) => state_fields(text@, identity@) == Some((seconds, rate@)),
            None => state_fields(text@, identity@) is None,
        },
{
    if bytes_in(text) > MAX_STATE_BYTES {
        return None;
    }
    let found: Vec<String> = split_lines(text);
    if found.len() != 4 {
        return None;
    }
    let ghost views_found = views(found@);
    assert(forall|i: int| 0 <= i < 4 ==> #[trigger] views_found[i] == found@[i]@);
    if !same_text(found[0].as_str(), "nut-power-bridge-charge-rate-v1") {
        return None;
    }
    match text_after(found[1].as_str(), "identity=") {
        Some(key) => {
            if !same_text(key.as_str(), identity_key(identity).as_str()) {
                return None;
            }
        },
        None => {
            return None;
        },
    }
    let timestamp: u64 = match text_after(found[2].as_str(), "timestamp=") {
        Some(digits) => match parse_unsigned(digits.as_str()) {
            Some(seconds) => seconds,
            None => {
                return None;
            },
        },
        None => {
            return None;
        },
    };
    match text_after(found[3].as_str(), "seconds_per_percent=") {
        Some(rate) => Some((timestamp, rate)),
        None => None,
    }
}

/// A rate from a state file, where it is valid, not from the future and not too old.
pub open spec fn accepted_rate(timestamp: u64, rate: Option<Number>, wall: i128) -> Option<
    LearnedRate,
> {
    let now = wall as int / NANOS_PER_SECOND as int;
    match rate {
        Some(Number::Finite { negative: false, magnitude }) => if wall >= 0 && is_valid_rate(
            magnitude,
        ) && timestamp <= now && (now - timestamp) * NANOS_PER_SECOND <= CACHE_MAX_AGE {
            Some(
                LearnedRate {
                    rate: magnitude,
                    learned_at: (timestamp * NANOS_PER_SECOND) as i128,
                },
            )
        } else {
            None
        },
        _ => None,
    }
}

/// Decides whether to use the rate of a state file; `rate` is the number that its text stands for
/// and `wall` is the present.
pub fn accept_rate(timestamp: u64, rate: Option<Number>, wall: i128) -> (result: Option<
    LearnedRate,
>)
    requires
        rate matches Some(number) ==> number.wf(),
    ensures
        result == accepted_rate(timestamp, rate, wall),
        result matches Some(learned) ==> is_valid_rate(learned.rate),
{
    if wall < 0 {
        return None;
    }
    let now: i128 = wall / NANOS_PER_SECOND as i128;
    match rate {
        Some(Number::Finite { negative, magnitude }) => {
            if negative || !valid_rate(magnitude) || timestamp as i128 > now || now
                - timestamp as i128 > (CACHE_MAX_AGE / NANOS_PER_SECOND as u128) as i128 {
                return None;
            }
            Some(
                LearnedRate {
                    rate: magnitude,
                    learned_at: timestamp as i128 * NANOS_PER_SECOND as i128,
                },
            )
        },
        _ => None,
    }
}

/// What is put behind the name of the state file for a temporary file.
pub open spec fn temporary_suffix(process: nat, nanos: nat, attempt: nat) -> Seq<char> {
    "."@ + decimal(process) + "."@ + decimal(nanos) + "."@ + decimal(attempt) + ".tmp"@
}

/// The name of a temporary file beside the state file, in bytes.
pub open spec fn temporary_name_of(path: Seq<u8>, process: nat, nanos: nat, attempt: nat) -> Result<
    Seq<u8>,
    Problem,
> {
    match final_name(path) {
        Some(name) => Ok(name + encode_utf8(temporary_suffix(process, nanos, attempt))),
        None => Err(
            Problem {
                kind: FailureKind::InvalidInput,
                message: "Charging state needs a filename"@,
            },
        ),
    }
}

/// The name of a temporary file beside the state file; `nanos` is the wall time since the epoch.
pub fn temporary_name(path: &Vec<u8>, process: u32, nanos: u128, attempt: u32) -> (result: Result<
    Vec<u8>,
    Failure,
>)
    ensures
        match result {
            Ok(name) => temporary_name_of(path@, process as nat, nanos as nat, attempt as nat)
                == Ok::<Seq<u8>, Problem>(name@),
            Err(failure) => temporary_name_of(path@, process as nat, nanos as nat, attempt as nat)
                == Err::<Seq<u8>, Problem>(failure@),
        },
{
    let mut name: Vec<u8> = match file_name(path) {
        Some(name) => name,
        None => {
            return Err(
                Failure {
                    kind: FailureKind::InvalidInput,
                    message: "Charging state needs a filename".to_owned(),
                },
            );
        },
    };
    let mut suffix: String = ".".to_owned();
    push_decimal(&mut suffix, process as u128);
    suffix.append(".");
    push_decimal(&mut suffix, nanos);
    suffix.append(".");
    push_decimal(&mut suffix, attempt as u128);
    suffix.append(".tmp");
    let bytes: &[u8] = suffix.as_str().as_bytes();
    let ghost front = name@;
    let mut i: usize = 0;
    assert(front + bytes@.take(0) =~= front);
    while i < bytes.len()
        invariant
            i <= bytes.len(),
            name@ == front + bytes@.take(i as int),
        decreases bytes.len() - i,
    {
        name.push(bytes[i]);
        i = i + 1;
        assert(front + bytes@.take(i as int) =~= (front + bytes@.take(i - 1)).push(bytes@[i - 1]));
    }
    assert(bytes@.take(i as int) =~= bytes@);
    Ok(name)
}

/// How the attempt to create a temporary file ended.
#[derive(Clone, Copy, Debug, PartialEq, Eq, Structural)]
pub enum CreateOutcome {
    Created,
    NameTaken,
    Failed,
}

/// What follows an attempt to create a temporary file.
#[derive(Debug, PartialEq, Eq)]
pub enum SaveStep {
    /// Write the file and put it in the place of the state file.
    Write,
    /// Try the next name.
    Retry { attempt: u32 },
    /// Report the error of the attempt.
    Report,
    /// Report that no name was free.
    GiveUp { failure: Failure },
}

/// Decides what follows the attempt with the given number, counted from zero.
pub fn after_create(attempt: u32, outcome: CreateOutcome) -> (step: SaveStep)
    requires
        attempt < MAX_ATTEMPTS,
    ensures
        match outcome {
            CreateOutcome::Created => step == SaveStep::Write,
            CreateOutcome::Failed => step == SaveStep::Report,
            CreateOutcome::NameTaken => if attempt + 1 < MAX_ATTEMPTS {
                step == (SaveStep::Retry { attempt: (attempt + 1) as u32 })
            } else {
                step matches SaveStep::GiveUp { failure } && failure@ == (Problem {
                    kind: FailureKind::AlreadyExists,
                    message: "Could not create a unique charging state temporary file"@,
                })
            },
        },
{
    match outcome {
        CreateOutcome::Created => SaveStep::Write,
        CreateOutcome::Failed => SaveStep::Report,
        CreateOutcome::NameTaken => {
            if attempt + 1 < MAX_ATTEMPTS {
                return SaveStep::Retry { attempt: attempt + 1 };
            }
            let message: String =
                "Could not create a unique charging state temporary file".to_owned();
            SaveStep::GiveUp { failure: Failure { kind: FailureKind::AlreadyExists, message } }
        },
    }
}

} // verus!
