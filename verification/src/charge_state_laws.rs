//! What holds of the state file from one run of the daemon to the next.

use vstd::arithmetic::div_mod::*;
use vstd::arithmetic::power2::*;
use vstd::prelude::*;
use vstd::utf8::*;

use crate::charge_state::accepted_rate;
use crate::charge_state::hex;
use crate::charge_state::hex_digit;
use crate::charge_state::key_of;
use crate::charge_state::state_content;
use crate::charge_state::state_fields;
use crate::charge_state::state_result;
use crate::charge_state::temporary_name_of;
use crate::charge_state::temporary_suffix;
use crate::charging::is_valid_rate;
use crate::charging::LearnedRate;
use crate::charging::CACHE_MAX_AGE;
use crate::charging::NANOS_PER_SECOND;
use crate::config::identity_of;
use crate::failure::Problem;
use crate::magnitude::lemma_order;
use crate::magnitude::one;
use crate::magnitude::Magnitude;
use crate::number::Number;
use crate::paths::final_name;
use crate::protocol::is_name_char;
use crate::protocol::is_protocol_name;
use crate::rounding::distance;
use crate::rounding::excess_bits;
use crate::rounding::half_even;
use crate::rounding::law_rounding_is_nearest;
use crate::rounding::lemma_binade;
use crate::rounding::lemma_pow2_monotone;
use crate::rounding::rounded;
use crate::text::after_prefix;
use crate::text::decimal;
use crate::text::is_digit;
use crate::text::lemma_decimal_reads_back;
use crate::text::lemma_line_length_is;
use crate::text::lemma_unsigned_reads_back;
use crate::text::lines;
use crate::text::unsigned_value;

verus! {

/// The whole seconds in a time.
pub open spec fn whole_seconds(nanos: i128) -> int {
    nanos as int / NANOS_PER_SECOND as int
}

/// A text that can stand on a line.
pub open spec fn fits_line(text: Seq<char>) -> bool {
    &&& forall|i: int| 0 <= i < text.len() ==> #[trigger] text[i] != '\n'
    &&& text.len() > 0 ==> text.last() != '\r'
}

/// Different identities have different keys.
pub proof fn law_keys_are_distinct(a: Seq<char>, b: Seq<char>)
    requires
        key_of(a) == key_of(b),
    ensures
        a == b,
{
    let (x, y) = (encode_utf8(a), encode_utf8(b));
    let (h, k) = (hex(x), hex(y));
    assert(h.len() == k.len());
    assert forall|i: int| 0 <= i < x.len() implies x[i] == y[i] by {
        assert(h[2 * i] == k[2 * i]);
        assert(h[2 * i + 1] == k[2 * i + 1]);
        lemma_hex_digit(x[i] / 16, y[i] / 16);
        lemma_hex_digit(x[i] % 16, y[i] % 16);
    }
    assert(x =~= y);
    encode_utf8_decode_utf8(a);
    encode_utf8_decode_utf8(b);
}

proof fn lemma_hex_digit(a: u8, b: u8)
    requires
        a < 16,
        b < 16,
        hex_digit(a) == hex_digit(b),
    ensures
        a == b,
{
}

/// Different hosts or UPS names have different identities.
pub proof fn law_identities_are_distinct(
    host_a: Seq<char>,
    ups_a: Seq<char>,
    host_b: Seq<char>,
    ups_b: Seq<char>,
)
    requires
        is_protocol_name(ups_a),
        is_protocol_name(ups_b),
        identity_of(host_a, ups_a) == identity_of(host_b, ups_b),
    ensures
        host_a == host_b,
        ups_a == ups_b,
{
    reveal_strlit(" ");
    let (x, y) = (identity_of(host_a, ups_a), identity_of(host_b, ups_b));
    let n = x.len() as int;
    if ups_a.len() < ups_b.len() {
        let i = n - ups_a.len() - 1;
        assert(x[i] == ' ');
        assert(y[i] == ups_b[i - host_b.len() - 1]);
        assert(is_name_char(ups_b[i - host_b.len() - 1]));
    } else if ups_b.len() < ups_a.len() {
        let i = n - ups_b.len() - 1;
        assert(y[i] == ' ');
        assert(x[i] == ups_a[i - host_a.len() - 1]);
        assert(is_name_char(ups_a[i - host_a.len() - 1]));
    }
    assert(host_a =~= x.take(host_a.len() as int));
    assert(host_b =~= y.take(host_b.len() as int));
    assert(ups_a =~= x.skip(host_a.len() as int + 1));
    assert(ups_b =~= y.skip(host_b.len() as int + 1));
}

/// A text on a line of its own is the first line.
proof fn lemma_first_line(line: Seq<char>, behind: Seq<char>)
    requires
        fits_line(line),
    ensures
        lines(line + seq!['\n'] + behind) == seq![line] + lines(behind),
{
    let text = line + seq!['\n'] + behind;
    let n = line.len();
    assert forall|i: int| 0 <= i < n implies #[trigger] text[i] != '\n' by {
        assert(text[i] == line[i]);
    }
    assert(text[n as int] == '\n');
    lemma_line_length_is(text, n);
    assert(text.take(n as int) =~= line);
    assert(text.skip(n as int + 1) =~= behind);
}

proof fn lemma_after_prefix(prefix: Seq<char>, rest: Seq<char>)
    ensures
        after_prefix(prefix + rest, prefix) == Some(rest),
{
    assert((prefix + rest).subrange(0, prefix.len() as int) =~= prefix);
    assert((prefix + rest).skip(prefix.len() as int) =~= rest);
}

proof fn lemma_hex_is_plain(bytes: Seq<u8>)
    ensures
        forall|i: int| 0 <= i < hex(bytes).len() ==> (#[trigger] hex(bytes)[i]) != '\n' && hex(
            bytes,
        )[i] != '\r',
{
    assert forall|i: int| 0 <= i < hex(bytes).len() implies (#[trigger] hex(bytes)[i]) != '\n'
        && hex(bytes)[i] != '\r' by {
        let d = if i % 2 == 0 { bytes[i / 2] / 16 } else { bytes[i / 2] % 16 };
        assert(d < 16);
        assert(hex(bytes)[i] == hex_digit(d));
    }
}

/// The lines of a state file: three, and what the text of the rate makes of the rest.
proof fn lemma_state_lines(identity: Seq<char>, seconds: nat, rate_text: Seq<char>)
    ensures
        lines(state_content(identity, seconds, rate_text)) == seq![
            "nut-power-bridge-charge-rate-v1"@,
            "identity="@ + key_of(identity),
            "timestamp="@ + decimal(seconds),
        ] + lines("seconds_per_percent="@ + rate_text + seq!['\n']),
{
    reveal_strlit("nut-power-bridge-charge-rate-v1\n");
    reveal_strlit("nut-power-bridge-charge-rate-v1");
    reveal_strlit("identity=");
    reveal_strlit("timestamp=");
    reveal_strlit("\n");
    let version = "nut-power-bridge-charge-rate-v1"@;
    let key_line = "identity="@ + key_of(identity);
    let time_line = "timestamp="@ + decimal(seconds);
    let end = seq!['\n'];
    let d = "seconds_per_percent="@ + rate_text + end;
    let c = time_line + end + d;
    let b = key_line + end + c;
    assert("nut-power-bridge-charge-rate-v1\n"@ =~= version + end);
    assert(state_content(identity, seconds, rate_text) =~= version + end + b);
    lemma_hex_is_plain(encode_utf8(identity));
    lemma_decimal_reads_back(seconds);
    assert(fits_line(key_line)) by {
        let k = key_of(identity);
        assert forall|i: int| 0 <= i < key_line.len() implies #[trigger] key_line[i] != '\n' by {
            if i >= 9 {
                assert(key_line[i] == k[i - 9]);
            }
        }
        if k.len() > 0 {
            assert(key_line.last() == k[k.len() - 1]);
        }
    }
    assert(fits_line(time_line)) by {
        let t = decimal(seconds);
        assert forall|i: int| 0 <= i < time_line.len() implies #[trigger] time_line[i] != '\n' by {
            if i >= 10 {
                assert(time_line[i] == t[i - 10]);
                assert(is_digit(t[i - 10]));
            }
        }
        assert(time_line.last() == t[t.len() - 1]);
        assert(is_digit(t[t.len() - 1]));
    }
    lemma_first_line(version, b);
    lemma_first_line(key_line, c);
    lemma_first_line(time_line, d);
    assert(seq![version] + (seq![key_line] + (seq![time_line] + lines(d))) =~= seq![
        version,
        key_line,
        time_line,
    ] + lines(d));
}

/// The last line of a state file.
proof fn lemma_rate_line(rate_text: Seq<char>)
    requires
        fits_line(rate_text),
    ensures
        lines("seconds_per_percent="@ + rate_text + seq!['\n']) == seq![
            "seconds_per_percent="@ + rate_text,
        ],
{
    reveal_strlit("seconds_per_percent=");
    let rate_line = "seconds_per_percent="@ + rate_text;
    let none = Seq::<char>::empty();
    assert forall|i: int| 0 <= i < rate_line.len() implies #[trigger] rate_line[i] != '\n' by {
        if i >= 20 {
            assert(rate_line[i] == rate_text[i - 20]);
        }
    }
    if rate_text.len() > 0 {
        assert(rate_line.last() == rate_text.last());
    }
    lemma_first_line(rate_line, none);
    assert(lines(none) =~= Seq::<Seq<char>>::empty());
    assert(rate_line + seq!['\n'] + none =~= rate_line + seq!['\n']);
}

/// What was written to the state file reads back: the time, in whole seconds, and the rate.
pub proof fn law_state_reads_back(identity: Seq<char>, rate_text: Seq<char>, wall: i128)
    requires
        fits_line(rate_text),
        whole_seconds(wall) <= u64::MAX,
    ensures
        state_result(identity, rate_text, wall) matches Ok(text) ==> state_fields(text, identity)
            == Some((whole_seconds(wall) as u64, rate_text)),
{
    if let Ok(text) = state_result(identity, rate_text, wall) {
        let seconds = wall as nat / NANOS_PER_SECOND as nat;
        lemma_state_lines(identity, seconds, rate_text);
        lemma_rate_line(rate_text);
        lemma_after_prefix("identity="@, key_of(identity));
        lemma_after_prefix("timestamp="@, decimal(seconds));
        lemma_after_prefix("seconds_per_percent="@, rate_text);
        lemma_unsigned_reads_back(seconds as u64);
    }
}

/// What was written for one identity is not used for another, whatever stands for the rate.
pub proof fn law_state_is_keyed(
    identity: Seq<char>,
    other: Seq<char>,
    rate_text: Seq<char>,
    wall: i128,
)
    requires
        other != identity,
    ensures
        state_result(identity, rate_text, wall) matches Ok(text) ==> state_fields(text, other)
            is None,
{
    if let Ok(text) = state_result(identity, rate_text, wall) {
        let seconds = wall as nat / NANOS_PER_SECOND as nat;
        lemma_state_lines(identity, seconds, rate_text);
        lemma_after_prefix("identity="@, key_of(identity));
        if key_of(identity) == key_of(other) {
            law_keys_are_distinct(identity, other);
        }
    }
}

/// A valid rate that reads back unchanged is accepted for thirty days, and then no more.
pub proof fn law_rate_is_kept_for_its_time(rate: LearnedRate, wall: i128)
    requires
        is_valid_rate(rate.rate),
        0 <= rate.learned_at <= wall,
        whole_seconds(rate.learned_at) <= u64::MAX,
    ensures
        ({
            let timestamp = whole_seconds(rate.learned_at) as u64;
            let number = Number::Finite { negative: false, magnitude: rate.rate };
            let found = accepted_rate(timestamp, Some(number), wall);
            let age = whole_seconds(wall) - timestamp;
            &&& found is Some <==> age * NANOS_PER_SECOND <= CACHE_MAX_AGE
            &&& found matches Some(kept) ==> kept.rate == rate.rate && kept.learned_at
                <= rate.learned_at < kept.learned_at + NANOS_PER_SECOND
        }),
{
    let n = NANOS_PER_SECOND as int;
    lemma_fundamental_div_mod(rate.learned_at as int, n);
    lemma_div_is_ordered(rate.learned_at as int, wall as int, n);
}

/// Different attempts to write the state file use different temporary files, and none of them is
/// the state file itself.
pub proof fn law_temporary_names_are_distinct(
    path: Seq<u8>,
    process: nat,
    nanos: nat,
    attempt: nat,
    other: nat,
)
    requires
        final_name(path) is Some,
        attempt != other,
    ensures
        temporary_name_of(path, process, nanos, attempt) is Ok,
        temporary_name_of(path, process, nanos, attempt) != temporary_name_of(
            path,
            process,
            nanos,
            other,
        ),
        temporary_name_of(path, process, nanos, attempt) != Ok::<Seq<u8>, Problem>(
            final_name(path)->Some_0,
        ),
{
    let name = final_name(path)->Some_0;
    let (a, b) = (
        temporary_suffix(process, nanos, attempt),
        temporary_suffix(process, nanos, other),
    );
    let (x, y) = (encode_utf8(a), encode_utf8(b));
    reveal_strlit(".");
    reveal_strlit(".tmp");
    assert(x.len() > 0) by {
        encode_utf8_decode_utf8(a);
        if x.len() == 0 {
            assert(x =~= encode_utf8(Seq::<char>::empty()));
            encode_utf8_decode_utf8(Seq::<char>::empty());
        }
    }
    if name + x == name + y {
        assert(x =~= (name + x).skip(name.len() as int));
        assert(y =~= (name + y).skip(name.len() as int));
        encode_utf8_decode_utf8(a);
        encode_utf8_decode_utf8(b);
        let front = "."@ + decimal(process) + "."@ + decimal(nanos) + "."@;
        let (m, n) = (front.len() as int, a.len() - 4);
        assert(decimal(attempt) =~= a.subrange(m, n));
        assert(decimal(other) =~= b.subrange(m, n));
        lemma_decimal_reads_back(attempt);
        lemma_decimal_reads_back(other);
    }
    if name + x == name {
        assert((name + x).len() == name.len());
    }
}

/// Seventeen decimals: how many of their last digit make one.
pub open spec fn decimal_scale() -> nat {
    100_000_000_000_000_000
}

/// The last `width` digits of a number.
pub open spec fn last_digits(n: nat, width: nat) -> Seq<char>
    decreases width,
{
    if width == 0 {
        Seq::empty()
    } else {
        last_digits(n / 10, (width - 1) as nat) + decimal(n % 10)
    }
}

/// A number with seventeen decimals.
pub open spec fn fixed_text(count: nat) -> Seq<char> {
    decimal(count / decimal_scale()) + "."@ + last_digits(count % decimal_scale(), 17)
}

/// `count` of the last of seventeen decimals are as near to a value as any number of them.
pub open spec fn is_fixed(count: nat, units: nat) -> bool {
    2 * distance(count, units * decimal_scale(), one()) <= one()
}

proof fn lemma_last_digits(n: nat, width: nat)
    ensures
        last_digits(n, width).len() == width,
        forall|i: int| 0 <= i < width ==> is_digit(#[trigger] last_digits(n, width)[i]),
    decreases width,
{
    if width > 0 {
        let front = last_digits(n / 10, (width - 1) as nat);
        let last = decimal(n % 10);
        lemma_last_digits(n / 10, (width - 1) as nat);
        lemma_decimal_reads_back(n % 10);
        assert(last.len() == 1);
        assert forall|i: int| 0 <= i < width implies is_digit(
            #[trigger] last_digits(n, width)[i],
        ) by {
            if i < width - 1 {
                assert(last_digits(n, width)[i] == front[i]);
            } else {
                assert(last_digits(n, width)[i] == last[0]);
            }
        }
    }
}

/// A number with seventeen decimals stands on one line.
proof fn lemma_fixed_text(count: nat)
    ensures
        fits_line(fixed_text(count)),
{
    reveal_strlit(".");
    let text = fixed_text(count);
    let whole = decimal(count / decimal_scale());
    let part = last_digits(count % decimal_scale(), 17);
    lemma_decimal_reads_back(count / decimal_scale());
    lemma_last_digits(count % decimal_scale(), 17);
    assert forall|i: int| 0 <= i < text.len() implies (#[trigger] text[i]) != '\n' && text[i]
        != '\r' by {
        if i < whole.len() {
            assert(text[i] == whole[i]);
            assert(is_digit(whole[i]));
        } else if i > whole.len() {
            assert(text[i] == part[i - whole.len() - 1]);
        }
    }
}

/// Seventeen decimals determine a rate: the value nearest to them is the rate.
pub proof fn law_decimals_determine_the_rate(rate: Magnitude, count: nat)
    requires
        is_valid_rate(rate),
        is_fixed(count, rate.units()),
    ensures
        rounded(count * one(), decimal_scale()) == rate.units(),
{
    let o = one();
    let s = decimal_scale();
    let (m, e) = (rate.mantissa as nat, rate.exponent as nat);
    let u = rate.units();
    let n = count * o;
    let r = rounded(n, s);
    let k = excess_bits(n, s);
    let h = half_even(n, s * pow2(k));
    lemma2_to64();
    lemma2_to64_rest();
    lemma_pow2_pos(1074);
    lemma_pow2_adds(3, 1074);
    // A valid rate is at least eight.
    assert(e >= 1025) by {
        if e < 1025 {
            lemma_pow2_adds(53, e);
            lemma_pow2_monotone(53 + e, 1077);
            assert(u <= pow2(53) * pow2(e)) by (nonlinear_arith)
                requires
                    u == m * pow2(e),
                    m < pow2(53),
            ;
        }
    }
    law_rounding_is_nearest(n, s, m, e);
    let (us, rs) = (u * s, r * s);
    assert(us - n <= o && n - us <= o && 2 * (us - n) <= o && 2 * (n - us) <= o);
    assert(rs - us <= o && us - rs <= o);
    assert(k >= 1025) by {
        lemma_binade(n, s, k);
        if k < 1025 {
            lemma_pow2_monotone(k + 53, 1077);
            assert(s * pow2(k + 53) <= s * pow2(1077) && 12 * (o * s) <= us && o <= o * s)
                by (nonlinear_arith)
                requires
                    pow2(k + 53) <= pow2(1077),
                    us == u * s,
                    12 * o <= u,
                    s >= 1,
                    o > 0,
            ;
            assert(s * pow2(1077) == 8 * (o * s)) by (nonlinear_arith)
                requires
                    pow2(1077) == 8 * o,
            ;
        }
    }
    // Both are multiples of a power of two that is larger than their distance.
    let g = pow2(1018);
    let (a, b) = (h * pow2((k - 1018) as nat), m * pow2((e - 1018) as nat));
    lemma_pow2_pos(1018);
    lemma_pow2_adds((k - 1018) as nat, 1018);
    lemma_pow2_adds((e - 1018) as nat, 1018);
    lemma_pow2_adds(56, 1018);
    assert(r == a * g && u == b * g) by (nonlinear_arith)
        requires
            r == h * pow2(k),
            u == m * pow2(e),
            pow2(k) == pow2((k - 1018) as nat) * g,
            pow2(e) == pow2((e - 1018) as nat) * g,
            a == h * pow2((k - 1018) as nat),
            b == m * pow2((e - 1018) as nat),
    ;
    let gap: int = if a >= b {
        a - b
    } else {
        b - a
    };
    if gap >= 1 {
        assert(gap * g * s <= o) by (nonlinear_arith)
            requires
                rs == r * s,
                us == u * s,
                r == a * g,
                u == b * g,
                rs - us <= o,
                us - rs <= o,
                gap == a - b || gap == b - a,
        ;
        assert(g * s <= gap * g * s && 0x100_0000_0000_0000 * g < g * s) by (nonlinear_arith)
            requires
                gap >= 1,
                g > 0,
                s == 100_000_000_000_000_000,
        ;
    }
}

/// A saved rate loads back: the rate, written with seventeen decimals, read from the file as the
/// value nearest to them, and accepted within thirty days, is the same rate, learned in the same
/// second.
pub proof fn law_saved_rate_loads_back(
    identity: Seq<char>,
    rate: Magnitude,
    wall: i128,
    count: nat,
    loaded: Magnitude,
    now: i128,
)
    requires
        is_valid_rate(rate),
        0 <= wall,
        whole_seconds(wall) <= u64::MAX,
        is_fixed(count, rate.units()),
        loaded.wf(),
        loaded.units() == rounded(count * one(), decimal_scale()),
        whole_seconds(wall) <= whole_seconds(now),
        (whole_seconds(now) - whole_seconds(wall)) * NANOS_PER_SECOND <= CACHE_MAX_AGE,
    ensures
        state_result(identity, fixed_text(count), wall) matches Ok(text) ==> state_fields(
            text,
            identity,
        ) == Some((whole_seconds(wall) as u64, fixed_text(count))),
        accepted_rate(
            whole_seconds(wall) as u64,
            Some(Number::Finite { negative: false, magnitude: loaded }),
            now,
        ) == Some(
            LearnedRate { rate, learned_at: (whole_seconds(wall) * NANOS_PER_SECOND) as i128 },
        ),
{
    lemma_fixed_text(count);
    law_state_reads_back(identity, fixed_text(count), wall);
    law_decimals_determine_the_rate(rate, count);
    lemma_order(loaded, rate);
    lemma_fundamental_div_mod(wall as int, NANOS_PER_SECOND as int);
}

/// The state file holds a version, the key, the time in whole seconds and the rate, each on its
/// line; it is written for every time since the epoch, as long as it has at most 4096 bytes.
pub proof fn law_state_is_written(identity: Seq<char>, rate_text: Seq<char>, wall: i128)
    ensures
        ({
            let seconds = (wall as int / 1_000_000_000) as nat;
            let content = "nut-power-bridge-charge-rate-v1\n"@ + "identity="@ + key_of(identity)
                + "\n"@ + "timestamp="@ + decimal(seconds) + "\n"@ + "seconds_per_percent="@
                + rate_text + "\n"@;
            match state_result(identity, rate_text, wall) {
                Ok(text) => wall >= 0 && encode_utf8(content).len() <= 4096 && text == content,
                Err(problem) => if wall < 0 {
                    problem.kind is InvalidData && problem.message
                        == "second time provided was later than self"@
                } else {
                    problem.kind is InvalidInput && problem.message
                        == "Charging state exceeds the size limit"@ && encode_utf8(content).len()
                        > 4096
                },
            }
        }),
{
}

/// The key is two digits for each byte of the identity, the higher half first: the bytes come
/// back from it.
pub proof fn law_keys_hold_the_bytes(identity: Seq<char>, i: int)
    requires
        0 <= i < encode_utf8(identity).len(),
    ensures
        ({
            let key = key_of(identity);
            let byte = encode_utf8(identity)[i];
            &&& key.len() == 2 * encode_utf8(identity).len()
            &&& hex_value(key[2 * i]) == byte as int / 16
            &&& hex_value(key[2 * i + 1]) == byte as int % 16
        }),
{
    let bytes = encode_utf8(identity);
    let key = key_of(identity);
    assert(key[2 * i] == hex_digit(bytes[i] / 16));
    assert(key[2 * i + 1] == hex_digit(bytes[i] % 16));
    lemma_hex_value(bytes[i] / 16);
    lemma_hex_value(bytes[i] % 16);
}

/// The number that a hexadecimal digit stands for.
pub open spec fn hex_value(c: char) -> int {
    if '0' <= c <= '9' {
        c as int - '0' as int
    } else {
        c as int - 'a' as int + 10
    }
}

proof fn lemma_hex_value(d: u8)
    requires
        d < 16,
    ensures
        hex_value(hex_digit(d)) == d,
{
}

/// A state file is used exactly where it has at most 4096 bytes and four lines: the version, the
/// key of this identity, a time, and a rate.
pub proof fn law_state_has_four_lines(
    text: Seq<char>,
    identity: Seq<char>,
    time: Seq<char>,
    rate_text: Seq<char>,
)
    ensures
        ({
            let found = lines(text);
            let fields = state_fields(text, identity);
            let version = "nut-power-bridge-charge-rate-v1"@;
            &&& fields is Some ==> encode_utf8(text).len() <= 4096 && found.len() == 4 && found[0]
                == version && found[1] == "identity="@ + key_of(identity)
            &&& fields matches Some((seconds, rate)) ==> found[3] == "seconds_per_percent="@ + rate
                && "timestamp="@.is_prefix_of(found[2]) && unsigned_value(
                found[2].skip("timestamp="@.len() as int),
            ) == Some(seconds)
            &&& encode_utf8(text).len() <= 4096 && found == seq![
                version,
                "identity="@ + key_of(identity),
                "timestamp="@ + time,
                "seconds_per_percent="@ + rate_text,
            ] ==> match unsigned_value(time) {
                Some(seconds) => fields == Some((seconds, rate_text)),
                None => fields is None,
            }
        }),
{
    let found = lines(text);
    lemma_after_prefix("identity="@, key_of(identity));
    lemma_after_prefix("timestamp="@, time);
    lemma_after_prefix("seconds_per_percent="@, rate_text);
    if state_fields(text, identity) is Some {
        lemma_prefixed(found[1], "identity="@);
        lemma_prefixed(found[3], "seconds_per_percent="@);
    }
}

proof fn lemma_prefixed(text: Seq<char>, prefix: Seq<char>)
    ensures
        after_prefix(text, prefix) matches Some(rest) ==> text == prefix + rest,
{
    if prefix.is_prefix_of(text) {
        assert(text =~= text.subrange(0, prefix.len() as int) + text.skip(prefix.len() as int));
    }
}

/// A rate is accepted exactly where it is a finite positive number of 12 to 72000 seconds, learned
/// in this second or before, and at most thirty days ago; it keeps its value and its time.
pub proof fn law_rates_are_accepted(timestamp: u64, rate: Option<Number>, wall: i128)
    requires
        rate matches Some(number) ==> number.wf(),
    ensures
        ({
            let now = wall as int / 1_000_000_000;
            let found = accepted_rate(timestamp, rate, wall);
            match rate {
                Some(Number::Finite { negative: false, magnitude }) => if 12 * one()
                    <= magnitude.units() <= 72000 * one() && wall >= 0 && 0 <= now - timestamp
                    <= 2_592_000 {
                    found == Some(
                        LearnedRate {
                            rate: magnitude,
                            learned_at: (timestamp * 1_000_000_000) as i128,
                        },
                    )
                } else {
                    found is None
                },
                _ => found is None,
            }
        }),
{
}

/// A temporary file has the name of the state file, with the process, the time and the attempt
/// behind it; a path without a name has none.
pub proof fn law_temporary_names(path: Seq<u8>, process: nat, nanos: nat, attempt: nat)
    ensures
        match final_name(path) {
            Some(name) => temporary_name_of(path, process, nanos, attempt) == Ok::<
                Seq<u8>,
                Problem,
            >(
                name + encode_utf8(
                    "."@ + decimal(process) + "."@ + decimal(nanos) + "."@ + decimal(attempt)
                        + ".tmp"@,
                ),
            ),
            None => temporary_name_of(path, process, nanos, attempt) matches Err(problem)
                && problem.kind is InvalidInput && problem.message
                == "Charging state needs a filename"@,
        },
{
}

} // verus!
