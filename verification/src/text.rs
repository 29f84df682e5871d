//! Characters, words, lines and decimal numbers.

use vstd::prelude::*;
use vstd::utf8::*;

verus! {

/// `String::push` appends one character to the end of the string.
pub assume_specification[ String::push ](text: &mut String, c: char)
    ensures
        final(text)@ == old(text)@.push(c),
;

/// The characters of a text.
pub fn chars_of(text: &str) -> (chars: Vec<char>)
    ensures
        chars@ == text@,
{
    let mut chars: Vec<char> = Vec::new();
    for c in it: text.chars()
        invariant
            it.seq() == text@,
            chars@ == text@.take(it.index()),
    {
        chars.push(c);
        assert(text@.take(it.index() + 1) == text@.take(it.index()).push(c));
    }
    assert(text@.take(text@.len() as int) == text@);
    chars
}

/// The text of some characters in a row.
pub fn text_between(chars: &Vec<char>, from: usize, to: usize) -> (text: String)
    requires
        from <= to <= chars.len(),
    ensures
        text@ == chars@.subrange(from as int, to as int),
{
    let mut text: String = String::new();
    let mut i: usize = from;
    while i < to
        invariant
            from <= i <= to <= chars.len(),
            text@ == chars@.subrange(from as int, i as int),
        decreases to - i,
    {
        text.push(chars[i]);
        i = i + 1;
        assert(chars@.subrange(from as int, i as int) == chars@.subrange(
            from as int,
            i - 1,
        ).push(chars@[i - 1]));
    }
    text
}

/// Whether two texts are the same.
pub fn same_text(a: &str, b: &str) -> (same: bool)
    ensures
        same == (a@ == b@),
{
    let left: Vec<char> = chars_of(a);
    let right: Vec<char> = chars_of(b);
    if left.len() != right.len() {
        return false;
    }
    let mut i: usize = 0;
    while i < left.len()
        invariant
            i <= left.len() == right.len(),
            left@ == a@,
            right@ == b@,
            forall|j: int| 0 <= j < i ==> left@[j] == right@[j],
        decreases left.len() - i,
    {
        if left[i] != right[i] {
            return false;
        }
        i = i + 1;
    }
    assert(left@ =~= right@);
    true
}

/// Two texts, one after the other.
pub fn join2(a: &str, b: &str) -> (text: String)
    ensures
        text@ == a@ + b@,
{
    let mut text: String = a.to_owned();
    text.append(b);
    text
}

/// Three texts, one after the other.
pub fn join3(a: &str, b: &str, c: &str) -> (text: String)
    ensures
        text@ == a@ + b@ + c@,
{
    let mut text: String = join2(a, b);
    text.append(c);
    text
}

/// Four texts, one after the other.
pub fn join4(a: &str, b: &str, c: &str, d: &str) -> (text: String)
    ensures
        text@ == a@ + b@ + c@ + d@,
{
    let mut text: String = join3(a, b, c);
    text.append(d);
    text
}

/// The views of a list of texts.
pub open spec fn views(texts: Seq<String>) -> Seq<Seq<char>> {
    texts.map_values(|text: String| text@)
}

/// The length of a text in UTF-8.
pub open spec fn byte_length(text: Seq<char>) -> nat {
    encode_utf8(text).len()
}

/// Counts the bytes of a text.
pub fn bytes_in(text: &str) -> (length: usize)
    ensures
        length == byte_length(text@),
{
    text.as_bytes().len()
}

/// Space, tab, line feed, form feed and carriage return.
pub open spec fn is_space(c: char) -> bool {
    c == ' ' || c == '\t' || c == '\n' || c == '\x0c' || c == '\r'
}

pub fn space(c: char) -> (yes: bool)
    ensures
        yes == is_space(c),
{
    c == ' ' || c == '\t' || c == '\n' || c == '\x0c' || c == '\r'
}

/// The control characters of ASCII.
pub open spec fn is_ascii_control(c: char) -> bool {
    c < '\x20' || c == '\x7f'
}

pub fn ascii_control(c: char) -> (yes: bool)
    ensures
        yes == is_ascii_control(c),
{
    c < '\x20' || c == '\x7f'
}

/// The control characters of Unicode: those of ASCII and U+0080 to U+009F.
pub open spec fn is_control(c: char) -> bool {
    c < '\x20' || '\x7f' <= c <= '\u{9f}'
}

pub fn control(c: char) -> (yes: bool)
    ensures
        yes == is_control(c),
{
    c < '\x20' || ('\x7f' <= c && c <= '\u{9f}')
}

/// The characters with the Unicode property `White_Space`.
pub open spec fn is_white(c: char) -> bool {
    ||| '\t' <= c <= '\r'
    ||| c == ' '
    ||| c == '\u{85}'
    ||| c == '\u{a0}'
    ||| c == '\u{1680}'
    ||| '\u{2000}' <= c <= '\u{200a}'
    ||| c == '\u{2028}'
    ||| c == '\u{2029}'
    ||| c == '\u{202f}'
    ||| c == '\u{205f}'
    ||| c == '\u{3000}'
}

pub fn white(c: char) -> (yes: bool)
    ensures
        yes == is_white(c),
{
    ('\t' <= c && c <= '\r') || c == ' ' || c == '\u{85}' || c == '\u{a0}' || c == '\u{1680}' || (
    '\u{2000}' <= c && c <= '\u{200a}') || c == '\u{2028}' || c == '\u{2029}' || c == '\u{202f}' || c
        == '\u{205f}' || c == '\u{3000}'
}

pub open spec fn is_digit(c: char) -> bool {
    '0' <= c <= '9'
}

pub fn digit(c: char) -> (yes: bool)
    ensures
        yes == is_digit(c),
{
    '0' <= c && c <= '9'
}

pub open spec fn is_upper(c: char) -> bool {
    'A' <= c <= 'Z'
}

pub fn upper(c: char) -> (yes: bool)
    ensures
        yes == is_upper(c),
{
    'A' <= c && c <= 'Z'
}

pub open spec fn is_lower(c: char) -> bool {
    'a' <= c <= 'z'
}

pub fn lower(c: char) -> (yes: bool)
    ensures
        yes == is_lower(c),
{
    'a' <= c && c <= 'z'
}

/// The digit of a number below ten.
pub open spec fn digit_char(d: nat) -> char {
    ('0' as nat + d) as char
}

fn char_of_digit(d: u8) -> (c: char)
    requires
        d < 10,
    ensures
        c == digit_char(d as nat),
{
    (48 + d) as char
}

/// A number in decimal, without leading zeros.
pub open spec fn decimal(n: nat) -> Seq<char>
    decreases n,
{
    if n < 10 {
        seq![digit_char(n)]
    } else {
        decimal(n / 10).push(digit_char(n % 10))
    }
}

/// Appends a number in decimal.
pub fn push_decimal(text: &mut String, n: u128)
    ensures
        final(text)@ == old(text)@ + decimal(n as nat),
    decreases n,
{
    if n >= 10 {
        push_decimal(text, n / 10);
    }
    text.push(char_of_digit((n % 10) as u8));
    assert(text@ =~= old(text)@ + decimal(n as nat));
}

/// An integer in decimal, with a sign only where it is negative.
pub open spec fn signed_decimal(n: int) -> Seq<char> {
    if n < 0 {
        seq!['-'] + decimal((-n) as nat)
    } else {
        decimal(n as nat)
    }
}

/// Appends an integer in decimal.
pub fn push_signed(text: &mut String, n: i32)
    ensures
        final(text)@ == old(text)@ + signed_decimal(n as int),
{
    if n < 0 {
        text.push('-');
        push_decimal(text, (-(n as i64)) as u128);
    } else {
        push_decimal(text, n as u128);
    }
    assert(text@ =~= old(text)@ + signed_decimal(n as int));
}

/// The number that decimal digits stand for.
pub open spec fn digits_value(digits: Seq<char>) -> nat
    decreases digits.len(),
{
    if digits.len() == 0 {
        0
    } else {
        digits_value(digits.drop_last()) * 10 + (digits.last() as nat - '0' as nat) as nat
    }
}

pub open spec fn all_digits(text: Seq<char>) -> bool {
    forall|i: int| 0 <= i < text.len() ==> is_digit(#[trigger] text[i])
}

/// A text without the plus sign that it may begin with.
pub open spec fn without_plus(text: Seq<char>) -> Seq<char> {
    if text.len() > 0 && text[0] == '+' {
        text.skip(1)
    } else {
        text
    }
}

/// The 64-bit number that a text stands for: decimal digits, with or without a plus sign.
pub open spec fn unsigned_value(text: Seq<char>) -> Option<u64> {
    let digits = without_plus(text);
    if digits.len() > 0 && all_digits(digits) && digits_value(digits) <= u64::MAX {
        Some(digits_value(digits) as u64)
    } else {
        None
    }
}

/// The digits at the front do not make a number smaller.
proof fn lemma_digits_grow(digits: Seq<char>, front: int)
    requires
        0 <= front <= digits.len(),
    ensures
        digits_value(digits.take(front)) <= digits_value(digits),
    decreases digits.len() - front,
{
    if front < digits.len() {
        lemma_digits_grow(digits, front + 1);
        assert(digits.take(front + 1).drop_last() == digits.take(front));
    } else {
        assert(digits.take(front) == digits);
    }
}

/// Reads a 64-bit number.
pub fn parse_unsigned(text: &str) -> (value: Option<u64>)
    ensures
        value == unsigned_value(text@),
{
    let chars: Vec<char> = chars_of(text);
    let start: usize = if chars.len() > 0 && chars[0] == '+' {
        1
    } else {
        0
    };
    let ghost digits = without_plus(text@);
    assert(digits == chars@.skip(start as int));
    if start == chars.len() {
        return None;
    }
    let mut value: u64 = 0;
    let mut i: usize = start;
    assert(digits.take(0) =~= Seq::<char>::empty());
    while i < chars.len()
        invariant
            start <= i <= chars.len(),
            digits == chars@.skip(start as int),
            digits == without_plus(text@),
            digits.len() > 0,
            value == digits_value(digits.take(i - start)),
            forall|j: int| 0 <= j < i - start ==> is_digit(#[trigger] digits[j]),
        decreases chars.len() - i,
    {
        let c: char = chars[i];
        assert(c == digits[i - start]);
        if !digit(c) {
            return None;
        }
        let d: u64 = (c as u32 - '0' as u32) as u64;
        proof {
            assert(digits.take(i - start + 1).drop_last() == digits.take(i - start));
            assert(digits_value(digits.take(i - start + 1)) == value * 10 + d);
            lemma_digits_grow(digits, i - start + 1);
        }
        if value > u64::MAX / 10 || value * 10 > u64::MAX - d {
            return None;
        }
        value = value * 10 + d;
        i = i + 1;
    }
    assert(digits.take(i - start) == digits);
    Some(value)
}

/// How many characters come before the first space.
pub open spec fn word_length(text: Seq<char>) -> nat
    decreases text.len(),
{
    if text.len() == 0 || is_space(text[0]) {
        0
    } else {
        1 + word_length(text.skip(1))
    }
}

pub proof fn lemma_word_length(text: Seq<char>)
    ensures
        word_length(text) <= text.len(),
        forall|i: int| 0 <= i < word_length(text) ==> !is_space(#[trigger] text[i]),
        word_length(text) < text.len() ==> is_space(text[word_length(text) as int]),
    decreases text.len(),
{
    if text.len() > 0 && !is_space(text[0]) {
        let rest = text.skip(1);
        lemma_word_length(rest);
        assert forall|i: int| 0 <= i < word_length(text) implies !is_space(#[trigger] text[i]) by {
            if i > 0 {
                assert(text[i] == rest[i - 1]);
            }
        }
    }
}

/// A run of characters without a space, up to a space or the end, is the word.
pub proof fn lemma_word_length_is(text: Seq<char>, n: nat)
    requires
        n <= text.len(),
        forall|i: int| 0 <= i < n ==> !is_space(#[trigger] text[i]),
        n < text.len() ==> is_space(text[n as int]),
    ensures
        word_length(text) == n,
{
    lemma_word_length(text);
    let found = word_length(text);
    if found < n {
        assert(!is_space(text[found as int]));
    } else if found > n {
        assert(!is_space(text[n as int]));
    }
}

/// The runs of characters between spaces.
pub open spec fn words(text: Seq<char>) -> Seq<Seq<char>>
    decreases text.len(),
{
    if text.len() == 0 {
        Seq::empty()
    } else if is_space(text[0]) {
        words(text.skip(1))
    } else {
        let n = word_length(text) as int;
        proof {
            lemma_word_length(text);
        }
        seq![text.take(n)] + words(text.skip(n))
    }
}

/// The position of the first space at or after `from`.
pub fn word_end(chars: &Vec<char>, from: usize) -> (end: usize)
    requires
        from <= chars.len(),
    ensures
        from <= end <= chars.len(),
        end - from == word_length(chars@.skip(from as int)),
{
    let mut end: usize = from;
    let ghost rest = chars@.skip(from as int);
    while end < chars.len() && !space(chars[end])
        invariant
            from <= end <= chars.len(),
            rest == chars@.skip(from as int),
            forall|i: int| 0 <= i < end - from ==> !is_space(#[trigger] rest[i]),
        decreases chars.len() - end,
    {
        assert(rest[end - from] == chars@[end as int]);
        end = end + 1;
    }
    proof {
        lemma_word_length_is(rest, (end - from) as nat);
    }
    end
}

/// Splits a text at spaces.
pub fn split_words(text: &str) -> (found: Vec<String>)
    ensures
        views(found@) == words(text@),
{
    let chars: Vec<char> = chars_of(text);
    let mut found: Vec<String> = Vec::new();
    let mut i: usize = 0;
    assert(chars@.skip(0) == chars@);
    assert(views(found@) =~= Seq::<Seq<char>>::empty());
    while i < chars.len()
        invariant
            i <= chars.len(),
            chars@ == text@,
            views(found@) + words(chars@.skip(i as int)) == words(text@),
        decreases chars.len() - i,
    {
        let ghost rest = chars@.skip(i as int);
        let ghost before = views(found@);
        assert(rest[0] == chars@[i as int]);
        if space(chars[i]) {
            i = i + 1;
            assert(rest.skip(1) == chars@.skip(i as int));
        } else {
            let end: usize = word_end(&chars, i);
            proof {
                lemma_word_length(rest);
            }
            let ghost n = end - i;
            let word: String = text_between(&chars, i, end);
            assert(word@ == rest.take(n));
            found.push(word);
            assert(views(found@) =~= before.push(word@));
            assert(rest.skip(n) =~= chars@.skip(end as int));
            assert(before + (seq![word@] + words(rest.skip(n))) =~= before.push(word@) + words(
                rest.skip(n),
            ));
            i = end;
        }
    }
    assert(words(chars@.skip(i as int)) =~= Seq::<Seq<char>>::empty());
    assert(views(found@) + Seq::<Seq<char>>::empty() =~= views(found@));
    found
}

/// How many characters come before the first line feed.
pub open spec fn line_length(text: Seq<char>) -> nat
    decreases text.len(),
{
    if text.len() == 0 || text[0] == '\n' {
        0
    } else {
        1 + line_length(text.skip(1))
    }
}

pub proof fn lemma_line_length(text: Seq<char>)
    ensures
        line_length(text) <= text.len(),
        forall|i: int| 0 <= i < line_length(text) ==> #[trigger] text[i] != '\n',
        line_length(text) < text.len() ==> text[line_length(text) as int] == '\n',
    decreases text.len(),
{
    if text.len() > 0 && text[0] != '\n' {
        let rest = text.skip(1);
        lemma_line_length(rest);
        assert forall|i: int| 0 <= i < line_length(text) implies #[trigger] text[i] != '\n' by {
            if i > 0 {
                assert(text[i] == rest[i - 1]);
            }
        }
    }
}

/// What stands before a line feed, up to the first, is the line.
pub proof fn lemma_line_length_is(text: Seq<char>, n: nat)
    requires
        n <= text.len(),
        forall|i: int| 0 <= i < n ==> #[trigger] text[i] != '\n',
        n < text.len() ==> text[n as int] == '\n',
    ensures
        line_length(text) == n,
{
    lemma_line_length(text);
    let found = line_length(text);
    if found < n {
        assert(text[found as int] != '\n');
    } else if found > n {
        assert(text[n as int] != '\n');
    }
}

/// A line without the carriage return that may stand before its line feed.
pub open spec fn without_return(line: Seq<char>) -> Seq<char> {
    if line.len() > 0 && line.last() == '\r' {
        line.drop_last()
    } else {
        line
    }
}

/// The lines of a text. A line ends with a line feed, or a carriage return and a line feed; the
/// last one need not end.
pub open spec fn lines(text: Seq<char>) -> Seq<Seq<char>>
    decreases text.len(),
{
    let n = line_length(text) as int;
    if text.len() == 0 {
        Seq::empty()
    } else if n >= text.len() {
        seq![text]
    } else {
        seq![without_return(text.take(n))] + lines(text.skip(n + 1))
    }
}

/// Splits a text into lines.
pub fn split_lines(text: &str) -> (found: Vec<String>)
    ensures
        views(found@) == lines(text@),
{
    let chars: Vec<char> = chars_of(text);
    let mut found: Vec<String> = Vec::new();
    let mut i: usize = 0;
    assert(chars@.skip(0) =~= chars@);
    assert(views(found@) =~= Seq::<Seq<char>>::empty());
    while i < chars.len()
        invariant
            i <= chars.len(),
            chars@ == text@,
            views(found@) + lines(chars@.skip(i as int)) == lines(text@),
        decreases chars.len() - i,
    {
        let ghost rest = chars@.skip(i as int);
        let ghost before = views(found@);
        let mut end: usize = i;
        while end < chars.len() && chars[end] != '\n'
            invariant
                i <= end <= chars.len(),
                rest == chars@.skip(i as int),
                forall|j: int| 0 <= j < end - i ==> #[trigger] rest[j] != '\n',
            decreases chars.len() - end,
        {
            assert(rest[end - i] == chars@[end as int]);
            end = end + 1;
        }
        let ghost n = end - i;
        proof {
            lemma_line_length_is(rest, n as nat);
        }
        if end == chars.len() {
            let line: String = text_between(&chars, i, end);
            assert(line@ =~= rest);
            found.push(line);
            assert(views(found@) =~= before + seq![rest]);
            i = end;
            assert(lines(chars@.skip(i as int)) =~= Seq::<Seq<char>>::empty());
        } else {
            assert(rest.take(n) =~= chars@.subrange(i as int, end as int));
            let stop: usize = if end > i && chars[end - 1] == '\r' {
                end - 1
            } else {
                end
            };
            let line: String = text_between(&chars, i, stop);
            assert(line@ =~= without_return(rest.take(n)));
            found.push(line);
            assert(views(found@) =~= before + seq![line@]);
            assert(rest.skip(n + 1) =~= chars@.skip(end + 1));
            assert(before + (seq![line@] + lines(rest.skip(n + 1))) =~= (before + seq![line@])
                + lines(rest.skip(n + 1)));
            i = end + 1;
        }
    }
    assert(lines(chars@.skip(i as int)) =~= Seq::<Seq<char>>::empty());
    assert(views(found@) + Seq::<Seq<char>>::empty() =~= views(found@));
    found
}

/// What follows a prefix, where the text begins with it.
pub open spec fn after_prefix(text: Seq<char>, prefix: Seq<char>) -> Option<Seq<char>> {
    if prefix.is_prefix_of(text) {
        Some(text.skip(prefix.len() as int))
    } else {
        None
    }
}

/// What follows a prefix.
pub fn text_after(text: &str, prefix: &str) -> (rest: Option<String>)
    ensures
        match rest {
            Some(r) => after_prefix(text@, prefix@) == Some(r@),
            None => after_prefix(text@, prefix@) is None,
        },
{
    let chars: Vec<char> = chars_of(text);
    let front: Vec<char> = chars_of(prefix);
    if front.len() > chars.len() {
        return None;
    }
    let mut i: usize = 0;
    while i < front.len()
        invariant
            i <= front.len() <= chars.len(),
            chars@ == text@,
            front@ == prefix@,
            forall|j: int| 0 <= j < i ==> front@[j] == chars@[j],
        decreases front.len() - i,
    {
        if front[i] != chars[i] {
            assert(text@.subrange(0, prefix@.len() as int)[i as int] == chars@[i as int]);
            return None;
        }
        i = i + 1;
    }
    let rest: String = text_between(&chars, front.len(), chars.len());
    assert(text@.subrange(0, prefix@.len() as int) =~= prefix@);
    assert(text@.skip(prefix@.len() as int) =~= rest@);
    Some(rest)
}

/// Whether a list of texts holds a text.
pub fn holds(texts: &Vec<String>, text: &str) -> (found: bool)
    ensures
        found == views(texts@).contains(text@),
{
    let mut i: usize = 0;
    while i < texts.len()
        invariant
            i <= texts.len(),
            forall|j: int| 0 <= j < i ==> views(texts@)[j] != text@,
        decreases texts.len() - i,
    {
        if same_text(texts[i].as_str(), text) {
            assert(views(texts@)[i as int] == text@);
            return true;
        }
        i = i + 1;
    }
    false
}

/// A number reads back from its decimal form.
pub proof fn lemma_decimal_reads_back(n: nat)
    ensures
        decimal(n).len() > 0,
        all_digits(decimal(n)),
        digits_value(decimal(n)) == n,
    decreases n,
{
    if n < 10 {
        let s = decimal(n);
        assert(s.drop_last() =~= Seq::<char>::empty());
        assert(digits_value(Seq::<char>::empty()) == 0);
    } else {
        lemma_decimal_reads_back(n / 10);
        let s = decimal(n);
        assert(s.drop_last() =~= decimal(n / 10));
        assert forall|i: int| 0 <= i < s.len() implies is_digit(#[trigger] s[i]) by {
            if i < s.len() - 1 {
                assert(s[i] == decimal(n / 10)[i]);
            }
        }
    }
}

/// A 64-bit number reads back from its decimal form.
pub proof fn lemma_unsigned_reads_back(n: u64)
    ensures
        unsigned_value(decimal(n as nat)) == Some(n),
{
    lemma_decimal_reads_back(n as nat);
    assert(is_digit(decimal(n as nat)[0]));
    assert(without_plus(decimal(n as nat)) == decimal(n as nat));
}

} // verus!
