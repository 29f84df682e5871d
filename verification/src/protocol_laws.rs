//! What holds of requests, replies and status words as a whole.

use vstd::prelude::*;
use vstd::utf8::*;

use crate::failure::FailureKind;
use crate::failure::Problem;
use crate::protocol::after_tokens;
use crate::protocol::breaks_token;
use crate::protocol::is_name_char;
use crate::protocol::is_protocol_name;
use crate::protocol::is_status_char;
use crate::protocol::is_status_list;
use crate::protocol::is_status_word;
use crate::protocol::protocol_tokens;
use crate::protocol::quoted;
use crate::protocol::reply_meaning;
use crate::protocol::request_of;
use crate::protocol::says_charging;
use crate::protocol::says_discharging;
use crate::protocol::says_on_battery;
use crate::protocol::says_on_line;
use crate::protocol::status_meaning;
use crate::protocol::without_line_end;
use crate::protocol::MAX_RESPONSE_LENGTH;
use crate::protocol::STATUS_CHARGING;
use crate::protocol::STATUS_DISCHARGING;
use crate::protocol::STATUS_FULL;
use crate::protocol::STATUS_NOT_CHARGING;
use crate::text::byte_length;
use crate::text::is_ascii_control;
use crate::text::is_space;
use crate::text::lemma_word_length;
use crate::text::lemma_word_length_is;
use crate::text::word_length;
use crate::text::words;

verus! {

/// A value as the server quotes it: with a backslash before each quote and each backslash.
pub open spec fn escaped(value: Seq<char>) -> Seq<char>
    decreases value.len(),
{
    if value.len() == 0 {
        Seq::empty()
    } else if value[0] == '"' || value[0] == '\\' {
        seq!['\\', value[0]] + escaped(value.skip(1))
    } else {
        seq![value[0]] + escaped(value.skip(1))
    }
}

/// A value without control characters can be quoted.
pub open spec fn is_quotable(value: Seq<char>) -> bool {
    forall|i: int| 0 <= i < value.len() ==> !is_ascii_control(#[trigger] value[i])
}

/// A word that needs no quotes.
pub open spec fn is_plain_word(word: Seq<char>) -> bool {
    word.len() > 0 && forall|i: int|
        0 <= i < word.len() ==> !is_space(#[trigger] word[i]) && !breaks_token(word[i])
}

/// A quoted value reads back as the value, whatever stands behind it.
proof fn lemma_quoted_reads_back(value: Seq<char>, behind: Seq<char>)
    requires
        is_quotable(value),
    ensures
        quoted(escaped(value) + seq!['"'] + behind) == Ok::<(Seq<char>, Seq<char>), Seq<char>>(
            (value, behind),
        ),
    decreases value.len(),
{
    let text = escaped(value) + seq!['"'] + behind;
    if value.len() == 0 {
        assert(text[0] == '"');
        assert(text.skip(1) =~= behind);
        assert(value =~= Seq::<char>::empty());
    } else {
        let rest = value.skip(1);
        lemma_quoted_reads_back(rest, behind);
        let tail = escaped(rest) + seq!['"'] + behind;
        assert(!is_ascii_control(value[0]));
        assert(seq![value[0]] + rest =~= value);
        if value[0] == '"' || value[0] == '\\' {
            assert(text =~= seq!['\\', value[0]] + tail);
            assert(text[0] == '\\' && text[1] == value[0]);
            assert(text.skip(2) =~= tail);
        } else {
            assert(text =~= seq![value[0]] + tail);
            assert(text[0] == value[0]);
            assert(text.skip(1) =~= tail);
        }
    }
}

/// A plain word before a space, or at the end, is a token.
proof fn lemma_plain_word(word: Seq<char>, behind: Seq<char>)
    requires
        is_plain_word(word),
        behind.len() > 0 ==> is_space(behind[0]),
    ensures
        protocol_tokens(word + behind) == after_tokens(seq![word], protocol_tokens(behind)),
{
    let text = word + behind;
    assert(text[0] == word[0]);
    assert(!breaks_token(word[0]));
    assert forall|i: int| 0 <= i < word.len() implies !is_space(#[trigger] text[i]) by {
        assert(text[i] == word[i]);
    }
    lemma_word_length_is(text, word.len());
    assert(text.take(word.len() as int) =~= word);
    assert(text.skip(word.len() as int) =~= behind);
    assert forall|i: int| 0 <= i < word.len() implies !breaks_token(#[trigger] text[i]) by {
        assert(text[i] == word[i]);
    }
}

/// A space between tokens does not matter.
proof fn lemma_space(behind: Seq<char>)
    ensures
        protocol_tokens(seq![' '] + behind) == protocol_tokens(behind),
{
    let text = seq![' '] + behind;
    assert(text.skip(1) =~= behind);
}

proof fn lemma_name_is_plain(name: Seq<char>)
    requires
        is_protocol_name(name),
    ensures
        is_plain_word(name),
{
    assert forall|i: int| 0 <= i < name.len() implies !is_space(#[trigger] name[i])
        && !breaks_token(name[i]) by {
        assert(is_name_char(name[i]));
    }
}

/// The reply that gives a value to a variable, as the server writes it.
pub open spec fn value_reply(
    ups_name: Seq<char>,
    variable: Seq<char>,
    value: Seq<char>,
) -> Seq<char> {
    "VAR "@ + ups_name + " "@ + variable + " \""@ + escaped(value) + "\"\n"@
}

/// The value in a reply reads back as it is, whatever quotes, backslashes and spaces it holds, as
/// long as the reply is not too long.
pub proof fn law_value_reads_back(ups_name: Seq<char>, variable: Seq<char>, value: Seq<char>)
    requires
        is_protocol_name(ups_name),
        is_protocol_name(variable),
        is_quotable(value),
        byte_length(value_reply(ups_name, variable, value)) <= MAX_RESPONSE_LENGTH,
    ensures
        reply_meaning(value_reply(ups_name, variable, value), ups_name, variable) == Ok::<
            Option<Seq<char>>,
            Problem,
        >(Some(value)),
{
    reveal_strlit("VAR ");
    reveal_strlit("VAR");
    reveal_strlit(" ");
    reveal_strlit(" \"");
    reveal_strlit("\"\n");
    reveal_strlit("ERR");
    let response = value_reply(ups_name, variable, value);
    let none = Seq::<char>::empty();
    let q = seq!['"'] + (escaped(value) + seq!['"'] + none);
    let s = seq![' '];
    let line = "VAR"@ + (s + (ups_name + (s + (variable + (s + q)))));
    // The line of the reply.
    assert(response =~= line.push('\n'));
    assert(line.last() == '"');
    assert(response.drop_last() =~= line);
    assert(without_line_end(response) == line) by {
        assert(without_line_end(line) == line);
    }
    // Its tokens.
    lemma_quoted_reads_back(value, none);
    assert(q.skip(1) =~= escaped(value) + seq!['"'] + none);
    assert(q[0] == '"');
    assert(protocol_tokens(none) =~= Ok::<Seq<Seq<char>>, Seq<char>>(Seq::empty()));
    assert(protocol_tokens(q) == after_tokens(seq![value], protocol_tokens(none)));
    lemma_space(q);
    lemma_name_is_plain(variable);
    lemma_plain_word(variable, s + q);
    let a = variable + (s + q);
    lemma_space(a);
    lemma_name_is_plain(ups_name);
    lemma_plain_word(ups_name, s + a);
    let b = ups_name + (s + a);
    lemma_space(b);
    lemma_plain_word("VAR"@, s + b);
    let tokens = seq!["VAR"@] + (seq![ups_name] + (seq![variable] + (seq![value] + Seq::<
        Seq<char>,
    >::empty())));
    assert(protocol_tokens(line) == Ok::<Seq<Seq<char>>, Seq<char>>(tokens));
    assert(tokens[0][0] == 'V' && "ERR"@[0] == 'E');
    assert(tokens.len() == 4 && tokens[1] == ups_name && tokens[2] == variable && tokens[3]
        == value);
}

/// A request for valid names is one line that asks for just that variable of that UPS.
pub proof fn law_request_is_one_line(ups_name: Seq<char>, variable: Seq<char>)
    requires
        is_protocol_name(ups_name),
        is_protocol_name(variable),
    ensures
        ({
            let request = request_of(ups_name, variable);
            &&& request.last() == '\n'
            &&& forall|i: int| 0 <= i < request.len() - 1 ==> #[trigger] request[i] != '\n'
            &&& protocol_tokens(request) == Ok::<Seq<Seq<char>>, Seq<char>>(
                seq!["GET"@, "VAR"@, ups_name, variable],
            )
        }),
{
    reveal_strlit("GET VAR ");
    reveal_strlit("GET");
    reveal_strlit("VAR");
    reveal_strlit(" ");
    reveal_strlit("\n");
    let request = request_of(ups_name, variable);
    let s = seq![' '];
    let end = seq!['\n'];
    let a = variable + end;
    let b = ups_name + (s + a);
    let c = "VAR"@ + (s + b);
    assert(request =~= "GET"@ + (s + c));
    lemma_name_is_plain(variable);
    lemma_name_is_plain(ups_name);
    assert(end.skip(1) =~= Seq::<char>::empty());
    assert(protocol_tokens(end.skip(1)) =~= Ok::<Seq<Seq<char>>, Seq<char>>(Seq::empty()));
    lemma_plain_word(variable, end);
    lemma_space(a);
    lemma_plain_word(ups_name, s + a);
    lemma_space(b);
    lemma_plain_word("VAR"@, s + b);
    lemma_space(c);
    lemma_plain_word("GET"@, s + c);
    let tokens = seq!["GET"@] + (seq!["VAR"@] + (seq![ups_name] + (seq![variable] + Seq::<
        Seq<char>,
    >::empty())));
    assert(protocol_tokens(request) == Ok::<Seq<Seq<char>>, Seq<char>>(tokens));
    assert(tokens =~= seq!["GET"@, "VAR"@, ups_name, variable]);
    assert forall|i: int| 0 <= i < request.len() - 1 implies #[trigger] request[i] != '\n' by {
        let n = ups_name.len();
        if 8 <= i < 8 + n {
            assert(request[i] == ups_name[i - 8]);
        } else if 9 + n <= i {
            assert(request[i] == variable[i - 9 - n]);
        }
    }
}

/// Status words in the order of the status table: `CHRG` is charging, `DISCHRG` and the words for
/// battery power are discharging, and mains power alone is full or not charging; mains power is
/// on exactly where a word says so.
pub proof fn law_status_table(value: Seq<char>, capacity: i32)
    ensures
        status_meaning(value, capacity) matches Ok((status, ac_online)) ==> {
            let found = words(value);
            &&& ac_online == 1 || ac_online == 0
            &&& ac_online == 1 <==> says_on_line(found)
            &&& ac_online == 0 <==> says_on_battery(found)
            &&& status == STATUS_CHARGING <==> says_charging(found)
            &&& status == STATUS_DISCHARGING <==> says_discharging(found) || says_on_battery(found)
            &&& status == STATUS_FULL <==> says_on_line(found) && !says_charging(found)
                && !says_discharging(found) && capacity == 100
            &&& status == STATUS_NOT_CHARGING <==> says_on_line(found) && !says_charging(found)
                && !says_discharging(found) && capacity != 100
        },
{
}

/// A battery is charging only while mains power is on.
pub proof fn law_charging_needs_mains(value: Seq<char>, capacity: i32)
    ensures
        status_meaning(value, capacity) matches Ok((status, ac_online)) ==> (status
            == STATUS_CHARGING ==> ac_online == 1),
{
}

/// Only which words a status holds matters, not their order, their number or the space between
/// them.
pub proof fn law_status_ignores_order(a: Seq<char>, b: Seq<char>, capacity: i32)
    requires
        forall|word: Seq<char>| #[trigger]
            words(a).contains(word) <==> words(b).contains(word),
    ensures
        status_meaning(a, capacity) is Ok <==> status_meaning(b, capacity) is Ok,
        status_meaning(a, capacity) is Ok ==> status_meaning(a, capacity) == status_meaning(
            b,
            capacity,
        ),
{
    if is_status_list(words(a)) {
        lemma_same_words_valid(words(a), words(b));
    }
    if is_status_list(words(b)) {
        lemma_same_words_valid(words(b), words(a));
    }
}

proof fn lemma_same_words_valid(a: Seq<Seq<char>>, b: Seq<Seq<char>>)
    requires
        forall|word: Seq<char>| #[trigger] a.contains(word) <==> b.contains(word),
        is_status_list(a),
    ensures
        is_status_list(b),
{
    assert(a.contains(a[0]));
    assert(b.contains(a[0]));
    assert forall|i: int| 0 <= i < b.len() implies is_status_word(#[trigger] b[i]) by {
        assert(b.contains(b[i]));
        assert(a.contains(b[i]));
        let j = choose|j: int| 0 <= j < a.len() && a[j] == b[i];
        assert(is_status_word(a[j]));
    }
}

/// Every character is a capital letter, a digit or a hyphen.
pub open spec fn is_plain_status(word: Seq<char>) -> bool {
    forall|i: int|
        0 <= i < word.len() ==> ('A' <= #[trigger] word[i] <= 'Z' || '0' <= word[i] <= '9'
            || word[i] == '-')
}

/// A status of valid words is accepted exactly where it has a word for mains power or one for
/// battery power, not both, and does not say that the battery charges while it discharges or
/// while the UPS is on battery power. Then the words say the status and the mains power; no other
/// word matters.
pub proof fn law_status_words_decide(value: Seq<char>, capacity: i32)
    ensures
        ({
            let found = words(value);
            let valid = found.len() > 0 && forall|i: int|
                0 <= i < found.len() ==> is_plain_status(#[trigger] found[i]);
            let mains = found.contains("OL"@) || found.contains("ONLINE"@);
            let battery = found.contains("OB"@) || found.contains("ONBAT"@) || found.contains(
                "ONBATT"@,
            );
            let charges = found.contains("CHRG"@);
            let discharges = found.contains("DISCHRG"@);
            let accepted = valid && mains != battery && !(charges && (discharges || battery));
            match status_meaning(value, capacity) {
                Ok((status, ac_online)) => {
                    &&& accepted
                    &&& mains ==> ac_online == 1
                    &&& battery ==> ac_online == 0 && status == 2
                    &&& discharges ==> status == 2
                    &&& charges ==> status == 1
                    &&& mains && !charges && !discharges && capacity == 100 ==> status == 4
                    &&& mains && !charges && !discharges && capacity != 100 ==> status == 3
                },
                Err(message) => {
                    &&& !accepted
                    &&& message == if !valid {
                        "invalid ups.status value: "@ + value
                    } else if mains == battery {
                        "ups.status must contain exactly one of OL or OB: "@ + value
                    } else {
                        "ups.status contains conflicting charge states: "@ + value
                    }
                },
            }
        }),
{
    let found = words(value);
    assert forall|i: int| 0 <= i < found.len() implies is_status_word(#[trigger] found[i])
        == is_plain_status(found[i]) by {
        let word = found[i];
        if is_status_word(word) {
            assert forall|j: int| 0 <= j < word.len() implies ('A' <= #[trigger] word[j] <= 'Z'
                || '0' <= word[j] <= '9' || word[j] == '-') by {
                assert(is_status_char(word[j]));
            }
        }
        if is_plain_status(word) {
            assert forall|j: int| 0 <= j < word.len() implies is_status_char(
                #[trigger] word[j],
            ) by {
                assert('A' <= word[j] <= 'Z' || '0' <= word[j] <= '9' || word[j] == '-');
            }
        }
    }
    let valid = forall|i: int| 0 <= i < found.len() ==> is_plain_status(#[trigger] found[i]);
    if is_status_list(found) {
        assert(valid);
    }
    if valid && found.len() > 0 {
        assert forall|i: int| 0 <= i < found.len() implies is_status_word(#[trigger] found[i]) by {
            assert(is_plain_status(found[i]));
        }
        assert(is_status_list(found));
    }
}

/// A valid word that says nothing about mains power, battery power or charging, such as one for a
/// low battery or for a boosted voltage, can be added to a status without effect.
pub proof fn law_other_words_change_nothing(
    value: Seq<char>,
    longer: Seq<char>,
    word: Seq<char>,
    capacity: i32,
)
    requires
        words(value).len() > 0,
        words(longer) == words(value).push(word),
        is_plain_status(word),
        word != "OL"@ && word != "ONLINE"@ && word != "OB"@ && word != "ONBAT"@ && word
            != "ONBATT"@ && word != "CHRG"@ && word != "DISCHRG"@,
    ensures
        status_meaning(longer, capacity) is Ok <==> status_meaning(value, capacity) is Ok,
        status_meaning(value, capacity) is Ok ==> status_meaning(longer, capacity)
            == status_meaning(value, capacity),
{
    law_status_words_decide(value, capacity);
    law_status_words_decide(longer, capacity);
    let (a, b) = (words(value), words(longer));
    assert forall|other: Seq<char>| other != word implies a.contains(other) == b.contains(
        other,
    ) by {
        if a.contains(other) {
            let i = choose|i: int| 0 <= i < a.len() && a[i] == other;
            assert(b[i] == other);
        }
        if b.contains(other) {
            let i = choose|i: int| 0 <= i < b.len() && b[i] == other;
            assert(a[i] == other);
        }
    }
    let valid_a = forall|i: int| 0 <= i < a.len() ==> is_plain_status(#[trigger] a[i]);
    let valid_b = forall|i: int| 0 <= i < b.len() ==> is_plain_status(#[trigger] b[i]);
    if valid_a {
        assert forall|i: int| 0 <= i < b.len() implies is_plain_status(#[trigger] b[i]) by {
            if i < a.len() {
                assert(is_plain_status(a[i]));
            }
        }
    }
    if valid_b {
        assert forall|i: int| 0 <= i < a.len() implies is_plain_status(#[trigger] a[i]) by {
            assert(is_plain_status(b[i]));
        }
    }
}

/// A control character of ASCII.
pub open spec fn is_low_control(c: char) -> bool {
    c < ' ' || c == '\x7f'
}

/// One of the five ASCII characters that separate words.
pub open spec fn separates(c: char) -> bool {
    c == ' ' || c == '\t' || c == '\n' || c == '\x0c' || c == '\r'
}

/// A word that stands for itself: no separator, no quote and no control character.
pub open spec fn stands_alone(word: Seq<char>) -> bool {
    word.len() > 0 && forall|i: int|
        0 <= i < word.len() ==> !separates(#[trigger] word[i]) && word[i] != '"'
            && !is_low_control(word[i])
}

/// A value that can be quoted: no control character.
pub open spec fn can_be_quoted(value: Seq<char>) -> bool {
    forall|i: int| 0 <= i < value.len() ==> !is_low_control(#[trigger] value[i])
}

/// A value between quotes, each quote and backslash in it with a backslash before it.
pub open spec fn in_quotes(value: Seq<char>) -> Seq<char> {
    seq!['"'] + escaped(value) + seq!['"']
}

/// A line is read token by token. Separators in front of a token do not matter; a word that
/// stands for itself is a token; what stands in quotes is a token, without its escapes; and
/// behind a token comes a separator, or the end.
pub proof fn law_tokens_are_read_in_turn(
    separator: char,
    word: Seq<char>,
    value: Seq<char>,
    behind: Seq<char>,
)
    requires
        separates(separator),
        stands_alone(word),
        can_be_quoted(value),
    ensures
        protocol_tokens(Seq::empty()) == Ok::<Seq<Seq<char>>, Seq<char>>(Seq::empty()),
        protocol_tokens(word) == Ok::<Seq<Seq<char>>, Seq<char>>(seq![word]),
        protocol_tokens(in_quotes(value)) == Ok::<Seq<Seq<char>>, Seq<char>>(seq![value]),
        protocol_tokens(seq![separator] + behind) == protocol_tokens(behind),
        match protocol_tokens(behind) {
            Ok(tokens) => {
                &&& protocol_tokens(word + seq![separator] + behind) == Ok::<
                    Seq<Seq<char>>,
                    Seq<char>,
                >(seq![word] + tokens)
                &&& protocol_tokens(in_quotes(value) + seq![separator] + behind) == Ok::<
                    Seq<Seq<char>>,
                    Seq<char>,
                >(seq![value] + tokens)
            },
            Err(message) => {
                &&& protocol_tokens(word + seq![separator] + behind) == Err::<
                    Seq<Seq<char>>,
                    Seq<char>,
                >(message)
                &&& protocol_tokens(in_quotes(value) + seq![separator] + behind) == Err::<
                    Seq<Seq<char>>,
                    Seq<char>,
                >(message)
            },
        },
{
    let none = Seq::<char>::empty();
    let rest = seq![separator] + behind;
    assert(rest.skip(1) =~= behind);
    assert(is_plain_word(word)) by {
        assert forall|i: int| 0 <= i < word.len() implies !is_space(#[trigger] word[i])
            && !breaks_token(word[i]) by {
            assert(!separates(word[i]));
        }
    }
    assert(is_quotable(value)) by {
        assert forall|i: int| 0 <= i < value.len() implies !is_ascii_control(#[trigger] value[i])
            by {
            assert(!is_low_control(value[i]));
        }
    }
    assert(protocol_tokens(none) =~= Ok::<Seq<Seq<char>>, Seq<char>>(Seq::empty()));
    lemma_plain_word(word, none);
    assert(word + none =~= word);
    assert(seq![word] + Seq::<Seq<char>>::empty() =~= seq![word]);
    lemma_plain_word(word, rest);
    assert(word + seq![separator] + behind =~= word + rest);
    lemma_quoted_token(value, none);
    assert(in_quotes(value) + none =~= in_quotes(value));
    assert(seq![value] + Seq::<Seq<char>>::empty() =~= seq![value]);
    lemma_quoted_token(value, rest);
    assert(in_quotes(value) + seq![separator] + behind =~= in_quotes(value) + rest);
}

/// A quoted value before a space, or at the end, is a token.
proof fn lemma_quoted_token(value: Seq<char>, behind: Seq<char>)
    requires
        is_quotable(value),
        behind.len() > 0 ==> is_space(behind[0]),
    ensures
        protocol_tokens(in_quotes(value) + behind) == after_tokens(
            seq![value],
            protocol_tokens(behind),
        ),
{
    let text = in_quotes(value) + behind;
    lemma_quoted_reads_back(value, behind);
    assert(text[0] == '"');
    assert(text.skip(1) =~= escaped(value) + seq!['"'] + behind);
}

/// What is wrong within quotes is wrong whatever stands before it.
proof fn lemma_quoted_prefix(value: Seq<char>, behind: Seq<char>)
    requires
        is_quotable(value),
    ensures
        quoted(behind) matches Err(message) ==> quoted(escaped(value) + behind) == Err::<
            (Seq<char>, Seq<char>),
            Seq<char>,
        >(message),
    decreases value.len(),
{
    let text = escaped(value) + behind;
    if value.len() == 0 {
        assert(text =~= behind);
    } else {
        let rest = value.skip(1);
        let tail = escaped(rest) + behind;
        lemma_quoted_prefix(rest, behind);
        assert(!is_ascii_control(value[0]));
        if value[0] == '"' || value[0] == '\\' {
            assert(text =~= seq!['\\', value[0]] + tail);
            assert(text[0] == '\\' && text[1] == value[0]);
            assert(text.skip(2) =~= tail);
        } else {
            assert(text =~= seq![value[0]] + tail);
            assert(text[0] == value[0]);
            assert(text.skip(1) =~= tail);
        }
    }
}

/// A line that is refused, and why.
pub open spec fn refused(message: Seq<char>) -> Result<Seq<Seq<char>>, Seq<char>> {
    Err(message)
}

/// Nothing else is a token: no quote or control character within a word, no open quotes, no
/// control character and no other escape within quotes, and nothing but a separator behind them.
pub proof fn law_malformed_tokens_are_refused(
    word: Seq<char>,
    value: Seq<char>,
    wrong: char,
    behind: Seq<char>,
)
    requires
        can_be_quoted(value),
    ensures
        stands_alone(word) && !separates(wrong) && (wrong == '"' || is_low_control(wrong))
            ==> protocol_tokens(word + seq![wrong] + behind) == refused(
            "invalid unquoted NUT token"@,
        ),
        !separates(wrong) && is_low_control(wrong) ==> protocol_tokens(seq![wrong] + behind)
            == refused("invalid unquoted NUT token"@),
        protocol_tokens(seq!['"'] + escaped(value)) == refused(
            "unterminated quote in NUT response"@,
        ),
        protocol_tokens(seq!['"'] + escaped(value) + seq!['\\']) == refused(
            "unterminated escape in NUT response"@,
        ),
        is_low_control(wrong) ==> protocol_tokens(
            seq!['"'] + escaped(value) + seq![wrong] + behind,
        ) == refused("control byte in quoted NUT value"@),
        wrong != '\\' && wrong != '"' ==> protocol_tokens(
            seq!['"'] + escaped(value) + seq!['\\', wrong] + behind,
        ) == refused("invalid escape in NUT response"@),
        !separates(wrong) ==> protocol_tokens(in_quotes(value) + seq![wrong] + behind) == refused(
            "invalid text after quoted NUT value"@,
        ),
{
    let none = Seq::<char>::empty();
    assert(is_quotable(value)) by {
        assert forall|i: int| 0 <= i < value.len() implies !is_ascii_control(#[trigger] value[i])
            by {
            assert(!is_low_control(value[i]));
        }
    }
    if !separates(wrong) && (wrong == '"' || is_low_control(wrong)) {
        if stands_alone(word) {
            let text = word + seq![wrong] + behind;
            assert(!separates(word[0]) && word[0] != '"');
            assert(text[0] == word[0]);
            assert forall|i: int| 0 <= i < word.len() + 1 implies !is_space(#[trigger] text[i]) by {
                if i < word.len() {
                    assert(text[i] == word[i]);
                    assert(!separates(word[i]));
                }
            }
            lemma_word_reaches(text, word.len() + 1);
            assert(text[word.len() as int] == wrong);
            assert(breaks_token(text[word.len() as int]));
        }
        if is_low_control(wrong) {
            let text = seq![wrong] + behind;
            assert(text[0] == wrong);
            lemma_word_reaches(text, 1);
            assert(breaks_token(text[0]));
        }
    }
    // Open quotes.
    lemma_open(value, none);
    let slash = seq!['\\'];
    lemma_open(value, slash);
    let control = seq![wrong] + behind;
    assert(control[0] == wrong);
    lemma_open(value, control);
    assert(seq!['"'] + escaped(value) + seq![wrong] + behind =~= seq!['"'] + escaped(value)
        + control);
    let escape = seq!['\\', wrong] + behind;
    assert(escape[0] == '\\' && escape[1] == wrong);
    lemma_open(value, escape);
    assert(seq!['"'] + escaped(value) + seq!['\\', wrong] + behind =~= seq!['"'] + escaped(value)
        + escape);
    assert(seq!['"'] + escaped(value) + none =~= seq!['"'] + escaped(value));
    // Text behind the quotes.
    let text = in_quotes(value) + seq![wrong] + behind;
    lemma_quoted_reads_back(value, control);
    assert(text[0] == '"');
    assert(text.skip(1) =~= escaped(value) + seq!['"'] + control);
}

/// A line that begins with a quote is refused where the rest of the quoted value is.
proof fn lemma_open(value: Seq<char>, behind: Seq<char>)
    requires
        is_quotable(value),
    ensures
        quoted(behind) matches Err(message) ==> protocol_tokens(
            seq!['"'] + escaped(value) + behind,
        ) == refused(message),
{
    let text = seq!['"'] + escaped(value) + behind;
    lemma_quoted_prefix(value, behind);
    assert(text[0] == '"');
    assert(text.skip(1) =~= escaped(value) + behind);
}

proof fn lemma_word_reaches(text: Seq<char>, n: nat)
    requires
        n <= text.len(),
        forall|i: int| 0 <= i < n ==> !is_space(#[trigger] text[i]),
    ensures
        word_length(text) >= n,
{
    lemma_word_length(text);
    let found = word_length(text);
    if found < n {
        assert(!is_space(text[found as int]));
    }
}

/// A reply gives a value exactly where it is one line of at most 4096 bytes whose tokens are
/// `VAR`, the UPS, the variable and the value; the UPS does not have the variable exactly where
/// the tokens are `ERR` and one of two words for that. An empty reply is a closed connection, and
/// any other one is invalid data.
pub proof fn law_replies_mean_what_they_say(
    response: Seq<char>,
    ups_name: Seq<char>,
    variable: Seq<char>,
    value: Seq<char>,
)
    ensures
        ({
            let meaning = reply_meaning(response, ups_name, variable);
            let whole = response.len() > 0 && response.last() == '\n' && encode_utf8(response).len()
                <= 4096;
            let tokens = protocol_tokens(without_line_end(response));
            &&& meaning == Ok::<Option<Seq<char>>, Problem>(Some(value)) <==> whole && tokens
                == Ok::<Seq<Seq<char>>, Seq<char>>(seq!["VAR"@, ups_name, variable, value])
            &&& meaning == Ok::<Option<Seq<char>>, Problem>(None) <==> whole && (tokens == Ok::<
                Seq<Seq<char>>,
                Seq<char>,
            >(seq!["ERR"@, "VAR-NOT-SUPPORTED"@]) || tokens == Ok::<Seq<Seq<char>>, Seq<char>>(
                seq!["ERR"@, "VAR-NOT-AVAILABLE"@],
            ))
            &&& meaning matches Err(problem) ==> {
                let line = without_line_end(response);
                &&& problem.kind == if response.len() == 0 {
                    FailureKind::UnexpectedEof
                } else {
                    FailureKind::InvalidData
                }
                &&& problem.message == if response.len() == 0 {
                    "NUT closed the connection"@
                } else if encode_utf8(response).len() > 4096 {
                    "NUT response is too long"@
                } else if response.last() != '\n' {
                    "NUT response is not newline-terminated"@
                } else {
                    match tokens {
                        Err(message) => message,
                        Ok(found) => if found.len() > 0 && found[0] == "ERR"@ {
                            "NUT returned: "@ + line
                        } else {
                            "unexpected response for "@ + variable + ": "@ + line
                        },
                    }
                }
            }
        }),
{
    reveal_strlit("VAR");
    reveal_strlit("ERR");
    assert("VAR"@[0] == 'V' && "ERR"@[0] == 'E');
    if let Ok(tokens) = protocol_tokens(without_line_end(response)) {
        if tokens.len() == 4 {
            assert(tokens =~= seq![tokens[0], tokens[1], tokens[2], tokens[3]]);
        }
        if tokens.len() == 2 {
            assert(tokens =~= seq![tokens[0], tokens[1]]);
        }
        let given = seq!["VAR"@, ups_name, variable, value];
        assert(given[0] == "VAR"@ && given[1] == ups_name && given[2] == variable && given[3]
            == value);
        let (a, b) = (
            seq!["ERR"@, "VAR-NOT-SUPPORTED"@],
            seq!["ERR"@, "VAR-NOT-AVAILABLE"@],
        );
        assert(a[0] == "ERR"@ && a[1] == "VAR-NOT-SUPPORTED"@ && b[0] == "ERR"@ && b[1]
            == "VAR-NOT-AVAILABLE"@);
    }
}

/// The end of a line is its carriage returns and line feeds.
pub proof fn law_line_ends_are_taken_off(line: Seq<char>, end: Seq<char>)
    requires
        line.len() > 0 ==> line.last() != '\r' && line.last() != '\n',
        forall|i: int| 0 <= i < end.len() ==> (#[trigger] end[i] == '\r' || end[i] == '\n'),
    ensures
        without_line_end(line + end) == line,
    decreases end.len(),
{
    if end.len() == 0 {
        assert(line + end =~= line);
    } else {
        let front = end.drop_last();
        assert forall|i: int| 0 <= i < front.len() implies (#[trigger] front[i] == '\r' || front[i]
            == '\n') by {
            assert(front[i] == end[i]);
        }
        law_line_ends_are_taken_off(line, front);
        assert((line + end).last() == end.last());
        assert(end.last() == end[end.len() - 1]);
        assert((line + end).drop_last() =~= line + front);
    }
}

/// A name can stand in a request exactly where it is not empty and has only ASCII letters, digits,
/// dots, underscores and hyphens.
pub proof fn law_names_are_ascii(name: Seq<char>)
    ensures
        is_protocol_name(name) <==> name.len() > 0 && forall|i: int|
            0 <= i < name.len() ==> ('a' <= #[trigger] name[i] <= 'z' || 'A' <= name[i] <= 'Z'
                || '0' <= name[i] <= '9' || name[i] == '.' || name[i] == '_' || name[i] == '-'),
{
    if is_protocol_name(name) {
        assert forall|i: int| 0 <= i < name.len() implies ('a' <= #[trigger] name[i] <= 'z' || 'A'
            <= name[i] <= 'Z' || '0' <= name[i] <= '9' || name[i] == '.' || name[i] == '_'
            || name[i] == '-') by {
            assert(is_name_char(name[i]));
        }
    }
    if forall|i: int|
        0 <= i < name.len() ==> ('a' <= #[trigger] name[i] <= 'z' || 'A' <= name[i] <= 'Z' || '0'
            <= name[i] <= '9' || name[i] == '.' || name[i] == '_' || name[i] == '-') {
        assert forall|i: int| 0 <= i < name.len() implies is_name_char(#[trigger] name[i]) by {
            assert('a' <= name[i] <= 'z' || 'A' <= name[i] <= 'Z' || '0' <= name[i] <= '9'
                || name[i] == '.' || name[i] == '_' || name[i] == '-');
        }
    }
}

} // verus!
