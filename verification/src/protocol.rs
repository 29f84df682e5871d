//! The text protocol of a NUT server: requests, replies and status words.

use vstd::prelude::*;

use crate::failure::bad_data;
use crate::failure::invalid_data;
use crate::failure::Failure;
use crate::failure::FailureKind;
use crate::failure::Problem;
use crate::text::ascii_control;
use crate::text::byte_length;
use crate::text::bytes_in;
use crate::text::chars_of;
use crate::text::digit;
use crate::text::holds;
use crate::text::is_ascii_control;
use crate::text::is_digit;
use crate::text::is_lower;
use crate::text::is_space;
use crate::text::is_upper;
use crate::text::join2;
use crate::text::join4;
use crate::text::lemma_word_length;
use crate::text::lower;
use crate::text::same_text;
use crate::text::space;
use crate::text::split_words;
use crate::text::text_between;
use crate::text::upper;
use crate::text::views;
use crate::text::word_end;
use crate::text::word_length;
use crate::text::words;

verus! {

/// What is left of a line, read from the inside of a quoted value: the value up to the closing
/// quote and the text behind it, or the first thing that is wrong.
pub open spec fn quoted(text: Seq<char>) -> Result<(Seq<char>, Seq<char>), Seq<char>>
    decreases text.len(),
{
    if text.len() == 0 {
        Err("unterminated quote in NUT response"@)
    } else if text[0] == '"' {
        Ok((Seq::empty(), text.skip(1)))
    } else if text[0] == '\\' {
        if text.len() == 1 {
            Err("unterminated escape in NUT response"@)
        } else if text[1] != '\\' && text[1] != '"' {
            Err("invalid escape in NUT response"@)
        } else {
            preceded(seq![text[1]], quoted(text.skip(2)))
        }
    } else if is_ascii_control(text[0]) {
        Err("control byte in quoted NUT value"@)
    } else {
        preceded(seq![text[0]], quoted(text.skip(1)))
    }
}

/// A value that begins with `front` and goes on as `rest` does.
pub open spec fn preceded(
    front: Seq<char>,
    rest: Result<(Seq<char>, Seq<char>), Seq<char>>,
) -> Result<(Seq<char>, Seq<char>), Seq<char>> {
    match rest {
        Ok((value, behind)) => Ok((front + value, behind)),
        Err(message) => Err(message),
    }
}

/// The text behind a quoted value is shorter than the text that it was read from.
pub proof fn lemma_quoted_shrinks(text: Seq<char>)
    ensures
        quoted(text) matches Ok((value, behind)) ==> behind.len() < text.len(),
    decreases text.len(),
{
    if text.len() > 0 {
        if text[0] == '\\' {
            if text.len() > 1 {
                lemma_quoted_shrinks(text.skip(2));
            }
        } else {
            lemma_quoted_shrinks(text.skip(1));
        }
    }
}

/// A character that no unquoted token holds.
pub open spec fn breaks_token(c: char) -> bool {
    c == '"' || is_ascii_control(c)
}

/// The token at the front of a text that does not begin with a space, and the text behind it.
pub open spec fn first_token(text: Seq<char>) -> Result<(Seq<char>, Seq<char>), Seq<char>> {
    if text[0] == '"' {
        match quoted(text.skip(1)) {
            Ok((value, behind)) => if behind.len() > 0 && !is_space(behind[0]) {
                Err("invalid text after quoted NUT value"@)
            } else {
                Ok((value, behind))
            },
            Err(message) => Err(message),
        }
    } else {
        let n = word_length(text) as int;
        if exists|i: int| 0 <= i < n && breaks_token(#[trigger] text[i]) {
            Err("invalid unquoted NUT token"@)
        } else {
            Ok((text.take(n), text.skip(n)))
        }
    }
}

pub proof fn lemma_first_token_shrinks(text: Seq<char>)
    requires
        text.len() > 0,
        !is_space(text[0]),
    ensures
        first_token(text) matches Ok((token, behind)) ==> behind.len() < text.len(),
{
    lemma_quoted_shrinks(text.skip(1));
    lemma_word_length(text);
}

/// The tokens of a line, or the first thing that is wrong with it.
pub open spec fn protocol_tokens(text: Seq<char>) -> Result<Seq<Seq<char>>, Seq<char>>
    decreases text.len(),
{
    if text.len() == 0 {
        Ok(Seq::empty())
    } else if is_space(text[0]) {
        protocol_tokens(text.skip(1))
    } else {
        proof {
            lemma_first_token_shrinks(text);
        }
        match first_token(text) {
            Ok((token, behind)) => after_tokens(seq![token], protocol_tokens(behind)),
            Err(message) => Err(message),
        }
    }
}

/// Tokens that begin with `front` and go on as `rest` does.
pub open spec fn after_tokens(
    front: Seq<Seq<char>>,
    rest: Result<Seq<Seq<char>>, Seq<char>>,
) -> Result<Seq<Seq<char>>, Seq<char>> {
    match rest {
        Ok(tokens) => Ok(front + tokens),
        Err(message) => Err(message),
    }
}

/// Reads a quoted value whose opening quote stands just before `from`: the value, and the
/// position behind its closing quote.
fn read_quoted(chars: &Vec<char>, from: usize) -> (result: Result<(String, usize), Failure>)
    requires
        from <= chars.len(),
    ensures
        match result {
            Ok((value, end)) => end <= chars.len() && quoted(chars@.skip(from as int)) == Ok::<
                (Seq<char>, Seq<char>),
                Seq<char>,
            >((value@, chars@.skip(end as int))),
            Err(failure) => quoted(chars@.skip(from as int)) matches Err(message) && failure@
                == bad_data(message),
        },
{
    let mut value: String = String::new();
    let mut i: usize = from;
    let ghost goal = quoted(chars@.skip(from as int));
    proof {
        match goal {
            Ok((v, b)) => {
                assert(value@ + v =~= v);
            },
            Err(_) => {},
        }
    }
    while i < chars.len()
        invariant
            from <= i <= chars.len(),
            goal == quoted(chars@.skip(from as int)),
            goal == preceded(value@, quoted(chars@.skip(i as int))),
        decreases chars.len() - i,
    {
        let ghost rest = chars@.skip(i as int);
        let ghost before = value@;
        let c: char = chars[i];
        assert(rest[0] == c);
        if c == '"' {
            assert(rest.skip(1) =~= chars@.skip(i + 1));
            assert(before + Seq::<char>::empty() =~= before);
            return Ok((value, i + 1));
        }
        if c == '\\' {
            if i + 1 == chars.len() {
                return Err(invalid_data("unterminated escape in NUT response".to_owned()));
            }
            let escaped: char = chars[i + 1];
            assert(rest[1] == escaped);
            if escaped != '\\' && escaped != '"' {
                return Err(invalid_data("invalid escape in NUT response".to_owned()));
            }
            value.push(escaped);
            i = i + 2;
            proof {
                assert(rest.skip(2) =~= chars@.skip(i as int));
                lemma_preceded_twice(before, seq![escaped], quoted(chars@.skip(i as int)));
                assert(before + seq![escaped] =~= value@);
            }
        } else {
            if ascii_control(c) {
                return Err(invalid_data("control byte in quoted NUT value".to_owned()));
            }
            value.push(c);
            i = i + 1;
            proof {
                assert(rest.skip(1) =~= chars@.skip(i as int));
                lemma_preceded_twice(before, seq![c], quoted(chars@.skip(i as int)));
                assert(before + seq![c] =~= value@);
            }
        }
    }
    Err(invalid_data("unterminated quote in NUT response".to_owned()))
}

proof fn lemma_preceded_twice(
    a: Seq<char>,
    b: Seq<char>,
    rest: Result<(Seq<char>, Seq<char>), Seq<char>>,
)
    ensures
        preceded(a, preceded(b, rest)) == preceded(a + b, rest),
{
    match rest {
        Ok((value, behind)) => {
            assert(a + (b + value) =~= (a + b) + value);
        },
        Err(_) => {},
    }
}

/// Reads the token that begins at `from`, and the position behind it.
fn read_token(chars: &Vec<char>, from: usize) -> (result: Result<(String, usize), Failure>)
    requires
        from < chars.len(),
        !is_space(chars@[from as int]),
    ensures
        match result {
            Ok((token, end)) => from < end <= chars.len() && first_token(chars@.skip(from as int))
                == Ok::<(Seq<char>, Seq<char>), Seq<char>>((token@, chars@.skip(end as int))),
            Err(failure) => first_token(chars@.skip(from as int)) matches Err(message) && failure@
                == bad_data(message),
        },
{
    let ghost rest = chars@.skip(from as int);
    assert(rest[0] == chars@[from as int]);
    proof {
        lemma_first_token_shrinks(rest);
        lemma_word_length(rest);
    }
    if chars[from] == '"' {
        assert(rest.skip(1) =~= chars@.skip(from + 1));
        let (value, end) = match read_quoted(chars, from + 1) {
            Ok(found) => found,
            Err(failure) => {
                return Err(failure);
            },
        };
        proof {
            lemma_quoted_shrinks(rest.skip(1));
        }
        if end < chars.len() && !space(chars[end]) {
            assert(chars@.skip(end as int)[0] == chars@[end as int]);
            return Err(invalid_data("invalid text after quoted NUT value".to_owned()));
        }
        return Ok((value, end));
    }
    let end: usize = word_end(chars, from);
    let mut i: usize = from;
    while i < end
        invariant
            from <= i <= end <= chars.len(),
            rest == chars@.skip(from as int),
            end - from == word_length(rest),
            rest.len() > 0,
            rest[0] != '"',
            forall|j: int| 0 <= j < i - from ==> !breaks_token(#[trigger] rest[j]),
        decreases end - i,
    {
        let c: char = chars[i];
        assert(rest[i - from] == c);
        if c == '"' || ascii_control(c) {
            assert(breaks_token(rest[i - from]));
            return Err(invalid_data("invalid unquoted NUT token".to_owned()));
        }
        i = i + 1;
    }
    assert(chars@.subrange(from as int, end as int) =~= rest.take(end - from));
    assert(chars@.skip(end as int) =~= rest.skip(end - from));
    Ok((text_between(chars, from, end), end))
}

/// Splits a line into tokens. A token is a run of characters without spaces, or a quoted value in
/// which a backslash stands before each quote and each backslash.
pub fn parse_protocol_tokens(line: &str) -> (result: Result<Vec<String>, Failure>)
    ensures
        match result {
            Ok(tokens) => protocol_tokens(line@) == Ok::<Seq<Seq<char>>, Seq<char>>(
                views(tokens@),
            ),
            Err(failure) => protocol_tokens(line@) matches Err(message) && failure@ == bad_data(
                message,
            ),
        },
{
    let chars: Vec<char> = chars_of(line);
    let mut tokens: Vec<String> = Vec::new();
    let mut i: usize = 0;
    let ghost goal = protocol_tokens(line@);
    proof {
        assert(chars@.skip(0) =~= chars@);
        assert(views(tokens@) =~= Seq::<Seq<char>>::empty());
        match goal {
            Ok(found) => {
                assert(Seq::<Seq<char>>::empty() + found =~= found);
            },
            Err(_) => {},
        }
    }
    while i < chars.len()
        invariant
            i <= chars.len(),
            goal == protocol_tokens(line@),
            goal == after_tokens(views(tokens@), protocol_tokens(chars@.skip(i as int))),
        decreases chars.len() - i,
    {
        let ghost rest = chars@.skip(i as int);
        assert(rest[0] == chars@[i as int]);
        if space(chars[i]) {
            i = i + 1;
            assert(rest.skip(1) =~= chars@.skip(i as int));
        } else {
            let (token, end) = match read_token(&chars, i) {
                Ok(found) => found,
                Err(failure) => {
                    return Err(failure);
                },
            };
            let ghost before = views(tokens@);
            tokens.push(token);
            proof {
                assert(views(tokens@) =~= before + seq![token@]);
                match protocol_tokens(chars@.skip(end as int)) {
                    Ok(later) => {
                        assert(before + (seq![token@] + later) =~= (before + seq![token@])
                            + later);
                    },
                    Err(_) => {},
                }
            }
            i = end;
        }
    }
    assert(views(tokens@) + Seq::<Seq<char>>::empty() =~= views(tokens@));
    Ok(tokens)
}

/// The longest reply that is read, in bytes.
pub const MAX_RESPONSE_LENGTH: usize = 4096;

/// The request for one variable of a UPS.
pub open spec fn request_of(ups_name: Seq<char>, variable: Seq<char>) -> Seq<char> {
    "GET VAR "@ + ups_name + " "@ + variable + "\n"@
}

/// The request for one variable of a UPS.
pub fn variable_request(ups_name: &str, variable: &str) -> (request: String)
    ensures
        request@ == request_of(ups_name@, variable@),
        request@ == "GET VAR "@ + ups_name@ + " "@ + variable@ + "\n"@,
{
    let mut request: String = join4("GET VAR ", ups_name, " ", variable);
    request.append("\n");
    request
}

/// A line without the carriage returns and line feeds at its end.
pub open spec fn without_line_end(line: Seq<char>) -> Seq<char>
    decreases line.len(),
{
    if line.len() > 0 && (line.last() == '\r' || line.last() == '\n') {
        without_line_end(line.drop_last())
    } else {
        line
    }
}

/// Takes the carriage returns and line feeds off the end of a line.
fn trim_line_end(line: &str) -> (trimmed: String)
    ensures
        trimmed@ == without_line_end(line@),
{
    let chars: Vec<char> = chars_of(line);
    let mut end: usize = chars.len();
    assert(chars@.take(end as int) =~= chars@);
    while end > 0 && (chars[end - 1] == '\r' || chars[end - 1] == '\n')
        invariant
            end <= chars.len(),
            without_line_end(chars@.take(end as int)) == without_line_end(line@),
        decreases end,
    {
        assert(chars@.take(end as int).drop_last() =~= chars@.take(end - 1));
        end = end - 1;
    }
    assert(chars@.take(end as int) =~= chars@.subrange(0, end as int));
    text_between(&chars, 0, end)
}

/// What the server says in reply to a request for a variable: the value, `None` where the UPS
/// does not have the variable, or what is wrong with the reply.
pub open spec fn reply_meaning(
    response: Seq<char>,
    ups_name: Seq<char>,
    variable: Seq<char>,
) -> Result<Option<Seq<char>>, Problem> {
    let line = without_line_end(response);
    if response.len() == 0 {
        Err(Problem { kind: FailureKind::UnexpectedEof, message: "NUT closed the connection"@ })
    } else if byte_length(response) > MAX_RESPONSE_LENGTH {
        Err(bad_data("NUT response is too long"@))
    } else if response.last() != '\n' {
        Err(bad_data("NUT response is not newline-terminated"@))
    } else {
        match protocol_tokens(line) {
            Err(message) => Err(bad_data(message)),
            Ok(tokens) => if tokens.len() > 0 && tokens[0] == "ERR"@ {
                if tokens.len() == 2 && (tokens[1] == "VAR-NOT-SUPPORTED"@ || tokens[1]
                    == "VAR-NOT-AVAILABLE"@) {
                    Ok(None)
                } else {
                    Err(bad_data("NUT returned: "@ + line))
                }
            } else if tokens.len() == 4 && tokens[0] == "VAR"@ && tokens[1] == ups_name && tokens[2]
                == variable {
                Ok(Some(tokens[3]))
            } else {
                Err(bad_data("unexpected response for "@ + variable + ": "@ + line))
            },
        }
    }
}

/// Reads the reply to a request for a variable. An empty reply is a closed connection.
pub fn interpret_reply(response: &str, ups_name: &str, variable: &str) -> (result: Result<
    Option<String>,
    Failure,
>)
    ensures
        match result {
            Ok(Some(value)) => reply_meaning(response@, ups_name@, variable@) == Ok::<
                Option<Seq<char>>,
                Problem,
            >(Some(value@)),
            Ok(None) => reply_meaning(response@, ups_name@, variable@) == Ok::<
                Option<Seq<char>>,
                Problem,
            >(None),
            Err(failure) => reply_meaning(response@, ups_name@, variable@) == Err::<
                Option<Seq<char>>,
                Problem,
            >(failure@),
        },
{
    let chars: Vec<char> = chars_of(response);
    if chars.len() == 0 {
        return Err(
            Failure {
                kind: FailureKind::UnexpectedEof,
                message: "NUT closed the connection".to_owned(),
            },
        );
    }
    if bytes_in(response) > MAX_RESPONSE_LENGTH {
        return Err(invalid_data("NUT response is too long".to_owned()));
    }
    if chars[chars.len() - 1] != '\n' {
        return Err(invalid_data("NUT response is not newline-terminated".to_owned()));
    }
    let line: String = trim_line_end(response);
    let tokens: Vec<String> = match parse_protocol_tokens(line.as_str()) {
        Ok(tokens) => tokens,
        Err(failure) => {
            return Err(failure);
        },
    };
    let ghost found = views(tokens@);
    if tokens.len() > 0 && same_text(tokens[0].as_str(), "ERR") {
        assert(found[0] == "ERR"@);
        if tokens.len() == 2 && (same_text(tokens[1].as_str(), "VAR-NOT-SUPPORTED") || same_text(
            tokens[1].as_str(),
            "VAR-NOT-AVAILABLE",
        )) {
            return Ok(None);
        }
        return Err(invalid_data(join2("NUT returned: ", line.as_str())));
    }
    assert(tokens.len() > 0 ==> found[0] == tokens@[0]@);
    if tokens.len() != 4 || !same_text(tokens[0].as_str(), "VAR") || !same_text(
        tokens[1].as_str(),
        ups_name,
    ) || !same_text(tokens[2].as_str(), variable) {
        return Err(
            invalid_data(join4("unexpected response for ", variable, ": ", line.as_str())),
        );
    }
    Ok(Some(tokens[3].clone()))
}

/// The value of a variable that the bridge cannot do without.
pub fn required_value(reply: Option<String>, variable: &str) -> (result: Result<String, Failure>)
    ensures
        match reply {
            Some(value) => result == Ok::<String, Failure>(value),
            None => result matches Err(failure) && failure@ == bad_data(
                "required NUT variable is not available: "@ + variable@,
            ),
        },
{
    match reply {
        Some(value) => Ok(value),
        None => Err(invalid_data(join2("required NUT variable is not available: ", variable))),
    }
}

/// The characters of names in requests.
pub open spec fn is_name_char(c: char) -> bool {
    is_lower(c) || is_upper(c) || is_digit(c) || c == '.' || c == '_' || c == '-'
}

/// A name that can stand in a request.
pub open spec fn is_protocol_name(name: Seq<char>) -> bool {
    name.len() > 0 && forall|i: int| 0 <= i < name.len() ==> is_name_char(#[trigger] name[i])
}

/// Checks that a value can stand in a request; `name` says in the message what the value is.
pub fn validate_protocol_token(value: &str, name: &str) -> (result: Result<(), String>)
    ensures
        match result {
            Ok(()) => is_protocol_name(value@),
            Err(message) => !is_protocol_name(value@) && message@ == name@
                + " may contain only ASCII letters, digits, '.', '_' and '-'"@,
        },
{
    let chars: Vec<char> = chars_of(value);
    let mut valid: bool = chars.len() > 0;
    let mut i: usize = 0;
    while i < chars.len()
        invariant
            i <= chars.len(),
            valid == (chars.len() > 0 && forall|j: int|
                0 <= j < i ==> is_name_char(#[trigger] chars@[j])),
        decreases chars.len() - i,
    {
        let c: char = chars[i];
        if !(lower(c) || upper(c) || digit(c) || c == '.' || c == '_' || c == '-') {
            assert(!is_name_char(chars@[i as int]));
            valid = false;
        }
        i = i + 1;
    }
    if valid {
        Ok(())
    } else {
        Err(join2(name, " may contain only ASCII letters, digits, '.', '_' and '-'"))
    }
}

/// The status of the battery is not known.
pub const STATUS_UNKNOWN: i32 = 0;

/// The battery is charging.
pub const STATUS_CHARGING: i32 = 1;

/// The battery is discharging.
pub const STATUS_DISCHARGING: i32 = 2;

/// The battery is neither charging nor discharging.
pub const STATUS_NOT_CHARGING: i32 = 3;

/// The battery is full.
pub const STATUS_FULL: i32 = 4;

/// The characters of status words.
pub open spec fn is_status_char(c: char) -> bool {
    is_upper(c) || is_digit(c) || c == '-'
}

pub open spec fn is_status_word(word: Seq<char>) -> bool {
    forall|i: int| 0 <= i < word.len() ==> is_status_char(#[trigger] word[i])
}

/// A status is one word or more.
pub open spec fn is_status_list(found: Seq<Seq<char>>) -> bool {
    found.len() > 0 && forall|i: int| 0 <= i < found.len() ==> is_status_word(#[trigger] found[i])
}

pub open spec fn says_on_line(found: Seq<Seq<char>>) -> bool {
    found.contains("OL"@) || found.contains("ONLINE"@)
}

pub open spec fn says_on_battery(found: Seq<Seq<char>>) -> bool {
    found.contains("OB"@) || found.contains("ONBAT"@) || found.contains("ONBATT"@)
}

pub open spec fn says_charging(found: Seq<Seq<char>>) -> bool {
    found.contains("CHRG"@)
}

pub open spec fn says_discharging(found: Seq<Seq<char>>) -> bool {
    found.contains("DISCHRG"@)
}

/// The battery status and whether mains power is on, from the status words of a UPS.
pub open spec fn status_meaning(value: Seq<char>, capacity: i32) -> Result<
    (i32, i32),
    Seq<char>,
> {
    let found = words(value);
    if !is_status_list(found) {
        Err("invalid ups.status value: "@ + value)
    } else if says_on_line(found) == says_on_battery(found) {
        Err("ups.status must contain exactly one of OL or OB: "@ + value)
    } else if says_charging(found) && (says_discharging(found) || says_on_battery(found)) {
        Err("ups.status contains conflicting charge states: "@ + value)
    } else {
        Ok(
            (
                if says_on_battery(found) || says_discharging(found) {
                    STATUS_DISCHARGING
                } else if says_charging(found) {
                    STATUS_CHARGING
                } else if capacity == 100 {
                    STATUS_FULL
                } else {
                    STATUS_NOT_CHARGING
                },
                if says_on_line(found) {
                    1
                } else {
                    0
                },
            ),
        )
    }
}

/// Whether each of some words is a status word.
fn all_status_words(found: &Vec<String>) -> (valid: bool)
    ensures
        valid == forall|i: int| 0 <= i < found.len() ==> is_status_word(#[trigger] views(found@)[i]),
{
    let mut i: usize = 0;
    while i < found.len()
        invariant
            i <= found.len(),
            forall|k: int| 0 <= k < i ==> is_status_word(#[trigger] views(found@)[k]),
        decreases found.len() - i,
    {
        let chars: Vec<char> = chars_of(found[i].as_str());
        let mut j: usize = 0;
        assert(views(found@)[i as int] == chars@);
        while j < chars.len()
            invariant
                i < found.len(),
                j <= chars.len(),
                views(found@)[i as int] == chars@,
                forall|k: int| 0 <= k < j ==> is_status_char(#[trigger] chars@[k]),
            decreases chars.len() - j,
        {
            let c: char = chars[j];
            if !(upper(c) || digit(c) || c == '-') {
                assert(!is_status_char(chars@[j as int]));
                assert(!is_status_word(views(found@)[i as int]));
                return false;
            }
            j = j + 1;
        }
        i = i + 1;
    }
    true
}

/// Reads the status of a UPS: the battery status, and whether mains power is on.
pub fn map_status(value: &str, capacity: i32) -> (result: Result<(i32, i32), Failure>)
    ensures
        match result {
            Ok(found) => status_meaning(value@, capacity) == Ok::<(i32, i32), Seq<char>>(found),
            Err(failure) => status_meaning(value@, capacity) matches Err(message) && failure@
                == bad_data(message),
        },
{
    let statuses: Vec<String> = split_words(value);
    if statuses.len() == 0 || !all_status_words(&statuses) {
        return Err(invalid_data(join2("invalid ups.status value: ", value)));
    }
    let on_line: bool = holds(&statuses, "OL") || holds(&statuses, "ONLINE");
    let on_battery: bool = holds(&statuses, "OB") || holds(&statuses, "ONBAT") || holds(
        &statuses,
        "ONBATT",
    );
    let charging: bool = holds(&statuses, "CHRG");
    let discharging: bool = holds(&statuses, "DISCHRG");
    if on_line == on_battery {
        return Err(
            invalid_data(join2("ups.status must contain exactly one of OL or OB: ", value)),
        );
    }
    if charging && (discharging || on_battery) {
        return Err(
            invalid_data(join2("ups.status contains conflicting charge states: ", value)),
        );
    }
    let ac_online: i32 = if on_line {
        1
    } else {
        0
    };
    let status: i32 = if on_battery || discharging {
        STATUS_DISCHARGING
    } else if charging {
        STATUS_CHARGING
    } else if on_line && capacity == 100 {
        STATUS_FULL
    } else {
        STATUS_NOT_CHARGING
    };
    Ok((status, ac_online))
}

} // verus!
