use nut_power_bridge::paths::directory_of;
use nut_power_bridge::paths::file_name;
use nut_power_bridge::paths::join_path;
use nut_power_bridge::paths::sibling_of;
use nut_power_bridge::text::ascii_control;
use nut_power_bridge::text::bytes_in;
use nut_power_bridge::text::control;
use nut_power_bridge::text::digit;
use nut_power_bridge::text::join2;
use nut_power_bridge::text::join3;
use nut_power_bridge::text::join4;
use nut_power_bridge::text::lower;
use nut_power_bridge::text::parse_unsigned;
use nut_power_bridge::text::push_decimal;
use nut_power_bridge::text::push_signed;
use nut_power_bridge::text::same_text;
use nut_power_bridge::text::space;
use nut_power_bridge::text::split_lines;
use nut_power_bridge::text::split_words;
use nut_power_bridge::text::text_after;
use nut_power_bridge::text::upper;
use nut_power_bridge::text::white;
use std::path::Path;

#[test]
fn character_classes_match_std() {
    for code in 0..0x11_0000u32 {
        if let Some(c) = char::from_u32(code) {
            assert_eq!(space(c), c.is_ascii_whitespace(), "{code:x}");
            assert_eq!(white(c), c.is_whitespace(), "{code:x}");
            assert_eq!(control(c), c.is_control(), "{code:x}");
            assert_eq!(ascii_control(c), c.is_ascii_control(), "{code:x}");
            assert_eq!(digit(c), c.is_ascii_digit(), "{code:x}");
            assert_eq!(upper(c), c.is_ascii_uppercase(), "{code:x}");
            assert_eq!(lower(c), c.is_ascii_lowercase(), "{code:x}");
        }
    }
}

#[test]
fn decimal_numbers_match_std() {
    for n in [0u128, 7, 10, 99, 100, 1234567890, u64::MAX as u128, u128::MAX] {
        let mut text = "n=".to_string();
        push_decimal(&mut text, n);
        assert_eq!(text, format!("n={n}"));
    }
    for n in [0i32, 1, -1, 42, -42, i32::MAX, i32::MIN] {
        let mut text = String::new();
        push_signed(&mut text, n);
        assert_eq!(text, format!("{n}"));
    }
}

#[test]
fn unsigned_numbers_match_std() {
    let texts = [
        "0", "1", "007", "+5", "-5", "-0", "+", "", " 1", "1 ", "1.0", "1e3", "++1", "1_000",
        "18446744073709551615", "18446744073709551616", "018446744073709551615",
        "99999999999999999999999999", "\u{0664}", "12a",
    ];
    for text in texts {
        assert_eq!(parse_unsigned(text), text.parse::<u64>().ok(), "{text:?}");
    }
}

#[test]
fn words_match_std() {
    for text in ["", " ", "OL", " OL  CHRG ", "a\tb\nc\rd\x0ce", "a\u{b}b", "a\u{a0}b \u{e9}"] {
        let expected: Vec<String> = text.split_ascii_whitespace().map(str::to_owned).collect();
        assert_eq!(split_words(text), expected, "{text:?}");
    }
}

#[test]
fn lines_match_std() {
    for text in ["", "\n", "a", "a\n", "a\nb", "a\r\nb\r\n", "a\r", "a\r\r\n", "\r\n\n", "\u{e9}\n\n"] {
        let expected: Vec<String> = text.lines().map(str::to_owned).collect();
        assert_eq!(split_lines(text), expected, "{text:?}");
    }
}

#[test]
fn prefixes_and_comparisons() {
    assert_eq!(text_after("identity=ab", "identity="), Some("ab".to_string()));
    assert_eq!(text_after("identity=", "identity="), Some(String::new()));
    assert_eq!(text_after("identity", "identity="), None);
    assert_eq!(text_after("Identity=ab", "identity="), None);
    assert!(same_text("ups", "ups"));
    assert!(!same_text("ups", "up"));
    assert!(!same_text("ups", "upS"));
    assert_eq!(bytes_in("\u{e9}a"), 3);
    assert_eq!(join2("a", "b"), "ab");
    assert_eq!(join3("a", "b", "c"), "abc");
    assert_eq!(join4("a", "b", "c", "d"), "abcd");
}

const PATHS: [&str; 35] = [
    "", "/", ".", "..", "a", "/a", "a/", "a//", "a/.", "a/./", "./a", "./.", "a/..", "a/../b",
    "../.", "/var/lib/nut-power-bridge/charge-rate", "a/...", "a/.b", "//", "/.", "/..", ".a",
    "a/b/./././", "a b/c d", "././a", ".//a", "//a/b", "/./a", "a/./b/", "../a", "a/b//.", "/a/.",
    "a/b/..", "/sys/kernel/nut_battery/update", "a/./.",
];

#[test]
fn file_names_match_std() {
    for path in PATHS {
        let expected = Path::new(path)
            .file_name()
            .map(|name| name.to_str().unwrap().as_bytes().to_vec());
        assert_eq!(file_name(&path.as_bytes().to_vec()), expected, "{path:?}");
    }
    assert_eq!(file_name(&vec![47, 0xff, 0xfe]), Some(vec![0xff, 0xfe]));
}

#[test]
fn directories_match_std() {
    for path in PATHS {
        let expected = Path::new(path)
            .parent()
            .filter(|parent| !parent.as_os_str().is_empty())
            .unwrap_or_else(|| Path::new("."));
        let found = directory_of(&path.as_bytes().to_vec());
        assert_eq!(String::from_utf8(found).unwrap(), expected.to_str().unwrap(), "{path:?}");
    }
    assert_eq!(directory_of(&b"charge-rate".to_vec()), b".".to_vec());
    assert_eq!(directory_of(&vec![0xff, 47, 0xfe]), vec![0xff]);
}

#[test]
fn joined_paths_match_std() {
    for path in PATHS {
        for name in ["x", "", "/x", "x/y", ".", "protocol_version"] {
            let expected = Path::new(path).join(name);
            let found = join_path(&path.as_bytes().to_vec(), &name.as_bytes().to_vec());
            assert_eq!(String::from_utf8(found).unwrap(), expected.to_str().unwrap(), "{path:?}");
        }
    }
}

#[test]
fn siblings_match_std() {
    for path in PATHS {
        for name in ["protocol_version", "\u{e9}", "", "/x"] {
            let expected = Path::new(path).with_file_name(name);
            let found = sibling_of(&path.as_bytes().to_vec(), name);
            assert_eq!(String::from_utf8(found).unwrap(), expected.to_str().unwrap(), "{path:?}");
        }
    }
    assert_eq!(
        sibling_of(&b"/sys/kernel/nut_battery/update".to_vec(), "protocol_version"),
        b"/sys/kernel/nut_battery/protocol_version".to_vec()
    );
}
