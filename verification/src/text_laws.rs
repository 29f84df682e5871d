//! What words, lines and decimal numbers are, said of joined texts.

use vstd::prelude::*;

use crate::protocol_laws::separates;
use crate::snapshot::trimmed;
use crate::text::all_digits;
use crate::text::decimal;
use crate::text::digits_value;
use crate::text::is_digit;
use crate::text::is_space;
use crate::text::is_white;
use crate::text::lemma_decimal_reads_back;
use crate::text::lemma_line_length_is;
use crate::text::lemma_word_length;
use crate::text::lemma_word_length_is;
use crate::text::lines;
use crate::text::signed_decimal;
use crate::text::unsigned_value;
use crate::text::without_plus;
use crate::text::word_length;
use crate::text::words;

verus! {

/// A separator parts words, and nothing else does.
pub proof fn law_words_are_split(front: Seq<char>, separator: char, behind: Seq<char>)
    requires
        separates(separator),
    ensures
        words(front + seq![separator] + behind) == words(front) + words(behind),
        words(Seq::empty()) == Seq::<Seq<char>>::empty(),
        front.len() > 0 && (forall|i: int| 0 <= i < front.len() ==> !separates(#[trigger] front[i]))
            ==> words(front) == seq![front],
    decreases front.len(),
{
    let text = front + seq![separator] + behind;
    let none = Seq::<Seq<char>>::empty();
    assert(words(Seq::empty()) =~= none);
    if front.len() == 0 {
        assert(text.skip(1) =~= behind);
        assert(front =~= Seq::empty());
        assert(words(text) =~= words(front) + words(behind));
    } else if is_space(front[0]) {
        law_words_are_split(front.skip(1), separator, behind);
        assert(text[0] == front[0]);
        assert(text.skip(1) =~= front.skip(1) + seq![separator] + behind);
        assert(separates(front[0]));
    } else {
        lemma_word_length(front);
        let n = word_length(front);
        assert(text[0] == front[0]);
        assert forall|i: int| 0 <= i < n implies !is_space(#[trigger] text[i]) by {
            assert(text[i] == front[i]);
        }
        assert(is_space(text[n as int])) by {
            if n < front.len() {
                assert(text[n as int] == front[n as int]);
            }
        }
        lemma_word_length_is(text, n);
        law_words_are_split(front.skip(n as int), separator, behind);
        assert(text.take(n as int) =~= front.take(n as int));
        assert(text.skip(n as int) =~= front.skip(n as int) + seq![separator] + behind);
        let word = front.take(n as int);
        let rest = words(front.skip(n as int));
        assert(seq![word] + (rest + words(behind)) =~= (seq![word] + rest) + words(behind));
        if forall|i: int| 0 <= i < front.len() ==> !separates(#[trigger] front[i]) {
            assert forall|i: int| 0 <= i < front.len() implies !is_space(#[trigger] front[i]) by {
                assert(!separates(front[i]));
            }
            lemma_word_length_is(front, front.len());
            assert(front.take(front.len() as int) =~= front);
            assert(front.skip(front.len() as int) =~= Seq::empty());
            assert(words(front) =~= seq![front]);
        }
    }
}

/// A line feed ends a line, with a carriage return before it or without; the last line need not
/// end.
pub proof fn law_lines_are_split(line: Seq<char>, behind: Seq<char>)
    requires
        forall|i: int| 0 <= i < line.len() ==> #[trigger] line[i] != '\n',
    ensures
        lines(Seq::empty()) == Seq::<Seq<char>>::empty(),
        line.len() > 0 ==> lines(line) == seq![line],
        (line.len() > 0 ==> line.last() != '\r') ==> lines(line + seq!['\n'] + behind) == seq![line]
            + lines(behind),
        lines(line + seq!['\r', '\n'] + behind) == seq![line] + lines(behind),
{
    assert(lines(Seq::empty()) =~= Seq::<Seq<char>>::empty());
    lemma_line_length_is(line, line.len());
    let plain = line + seq!['\n'] + behind;
    let n = line.len();
    assert forall|i: int| 0 <= i < n implies #[trigger] plain[i] != '\n' by {
        assert(plain[i] == line[i]);
    }
    assert(plain[n as int] == '\n');
    lemma_line_length_is(plain, n);
    assert(plain.take(n as int) =~= line);
    assert(plain.skip(n as int + 1) =~= behind);
    let returned = line + seq!['\r', '\n'] + behind;
    assert forall|i: int| 0 <= i < n + 1 implies #[trigger] returned[i] != '\n' by {
        if i < n {
            assert(returned[i] == line[i]);
        } else {
            assert(returned[i] == '\r');
        }
    }
    assert(returned[n as int + 1] == '\n');
    lemma_line_length_is(returned, n + 1);
    assert(returned.take(n as int + 1) =~= line.push('\r'));
    assert(line.push('\r').drop_last() =~= line);
    assert(returned.skip(n as int + 2) =~= behind);
}

/// A number in decimal is its digits, the last one being the number modulo ten; a sign stands
/// only before a negative one.
pub proof fn law_decimals_have_digits(n: nat, d: nat)
    requires
        d < 10,
    ensures
        decimal(d).len() == 1,
        decimal(0) == seq!['0'],
        decimal(1) == seq!['1'],
        decimal(2) == seq!['2'],
        decimal(3) == seq!['3'],
        decimal(4) == seq!['4'],
        decimal(5) == seq!['5'],
        decimal(6) == seq!['6'],
        decimal(7) == seq!['7'],
        decimal(8) == seq!['8'],
        decimal(9) == seq!['9'],
        n > 0 ==> decimal(10 * n + d) == decimal(n) + decimal(d),
        signed_decimal(n as int) == decimal(n),
        n > 0 ==> signed_decimal(-(n as int)) == seq!['-'] + decimal(n),
{
    if n > 0 {
        let m = 10 * n + d;
        assert(m / 10 == n && m % 10 == d);
        assert(decimal(m) =~= decimal(n) + decimal(d));
    }
}

/// A number reads back from its digits, behind zeros or a plus sign too. Anything else is no
/// number: a text without digits, with another character, or above 2^64 - 1.
pub proof fn law_numbers_read_back(n: nat, digits: Seq<char>, text: Seq<char>, at: int)
    ensures
        n < 0x1_0000_0000_0000_0000 ==> unsigned_value(decimal(n)) == Some(n as u64),
        n >= 0x1_0000_0000_0000_0000 ==> unsigned_value(decimal(n)) is None,
        digits.len() > 0 && digits[0] != '+' ==> unsigned_value(seq!['0'] + digits)
            == unsigned_value(digits),
        digits.len() > 0 && digits[0] != '+' ==> unsigned_value(seq!['+'] + digits)
            == unsigned_value(digits),
        0 <= at < text.len() && !('0' <= text[at] <= '9') && (at > 0 || text[at] != '+')
            ==> unsigned_value(text) is None,
        unsigned_value(Seq::empty()) is None,
        unsigned_value(seq!['+']) is None,
{
    lemma_decimal_reads_back(n);
    assert(is_digit(decimal(n)[0]));
    assert(without_plus(decimal(n)) == decimal(n));
    if digits.len() > 0 && digits[0] != '+' {
        let zero = seq!['0'] + digits;
        assert(zero[0] == '0');
        lemma_leading_zero(digits);
        if all_digits(digits) {
            assert forall|i: int| 0 <= i < zero.len() implies is_digit(#[trigger] zero[i]) by {
                if i > 0 {
                    assert(zero[i] == digits[i - 1]);
                }
            }
        }
        if all_digits(zero) {
            assert forall|i: int| 0 <= i < digits.len() implies is_digit(#[trigger] digits[i]) by {
                assert(zero[i + 1] == digits[i]);
            }
        }
        let plus = seq!['+'] + digits;
        assert(plus[0] == '+');
        assert(plus.skip(1) =~= digits);
    }
    if 0 <= at < text.len() && !('0' <= text[at] <= '9') && (at > 0 || text[at] != '+') {
        let rest = without_plus(text);
        if text[0] == '+' {
            assert(rest[at - 1] == text[at]);
            assert(!is_digit(rest[at - 1]));
        } else {
            assert(!is_digit(rest[at]));
        }
    }
    assert(seq!['+'].skip(1) =~= Seq::<char>::empty());
}

proof fn lemma_leading_zero(digits: Seq<char>)
    ensures
        digits_value(seq!['0'] + digits) == digits_value(digits),
    decreases digits.len(),
{
    let zero = seq!['0'] + digits;
    if digits.len() == 0 {
        assert(zero.drop_last() =~= Seq::<char>::empty());
        assert(digits_value(Seq::<char>::empty()) == 0);
    } else {
        lemma_leading_zero(digits.drop_last());
        assert(zero.drop_last() =~= seq!['0'] + digits.drop_last());
        assert(zero.last() == digits.last());
    }
}

/// White space around a text is taken off, and nothing else.
pub proof fn law_white_space_is_trimmed(front: Seq<char>, text: Seq<char>, behind: Seq<char>)
    requires
        forall|i: int| 0 <= i < front.len() ==> is_white(#[trigger] front[i]),
        forall|i: int| 0 <= i < behind.len() ==> is_white(#[trigger] behind[i]),
        text.len() > 0,
        !is_white(text[0]),
        !is_white(text.last()),
    ensures
        trimmed(front + text + behind) == text,
    decreases front.len() + behind.len(),
{
    let whole = front + text + behind;
    if front.len() > 0 {
        assert(whole[0] == front[0]);
        assert(whole.skip(1) =~= front.skip(1) + text + behind);
        assert forall|i: int| 0 <= i < front.skip(1).len() implies is_white(
            #[trigger] front.skip(1)[i],
        ) by {
            assert(front.skip(1)[i] == front[i + 1]);
        }
        law_white_space_is_trimmed(front.skip(1), text, behind);
    } else if behind.len() > 0 {
        assert(whole[0] == text[0]);
        assert(whole.last() == behind[behind.len() - 1]);
        assert(whole.drop_last() =~= front + text + behind.drop_last());
        law_white_space_is_trimmed(front, text, behind.drop_last());
    } else {
        assert(whole =~= text);
    }
}

} // verus!
