use nut_power_bridge::failure::invalid_data;
use nut_power_bridge::failure::Failure;
use nut_power_bridge::failure::FailureKind;
use nut_power_bridge::protocol::interpret_reply;
use nut_power_bridge::protocol::map_status;
use nut_power_bridge::protocol::parse_protocol_tokens;
use nut_power_bridge::protocol::required_value;
use nut_power_bridge::protocol::validate_protocol_token;
use nut_power_bridge::protocol::variable_request;
use nut_power_bridge::protocol::MAX_RESPONSE_LENGTH;

fn bad(message: &str) -> Failure {
    Failure { kind: FailureKind::InvalidData, message: message.to_string() }
}

fn tokens(line: &str) -> Vec<String> {
    parse_protocol_tokens(line).unwrap()
}

#[test]
fn failures_of_data() {
    assert_eq!(invalid_data("x".to_string()), bad("x"));
}

#[test]
fn tokens_are_split_at_spaces() {
    assert_eq!(tokens("a b"), vec!["a", "b"]);
    assert_eq!(tokens("  a\t\x0cb  "), vec!["a", "b"]);
    assert_eq!(tokens(""), Vec::<String>::new());
    assert_eq!(tokens(" "), Vec::<String>::new());
    assert_eq!(tokens("a\\b \u{e9}"), vec!["a\\b", "\u{e9}"]);
}

#[test]
fn quoted_tokens_hold_spaces_and_escapes() {
    assert_eq!(tokens("VAR ups ups.status \"OL CHRG\""), vec!["VAR", "ups", "ups.status", "OL CHRG"]);
    assert_eq!(tokens("\"\""), vec![""]);
    assert_eq!(tokens("\"a\\\"b\\\\c\" d"), vec!["a\"b\\c", "d"]);
    assert_eq!(tokens("\"\u{e9}\u{4e00}\""), vec!["\u{e9}\u{4e00}"]);
}

#[test]
fn malformed_lines_are_refused() {
    let cases = [
        ("\"abc", "unterminated quote in NUT response"),
        ("\"", "unterminated quote in NUT response"),
        ("\"abc\\", "unterminated escape in NUT response"),
        ("\"a\\n\"", "invalid escape in NUT response"),
        ("\"a\tb\"", "control byte in quoted NUT value"),
        ("\"a\u{7f}b\"", "control byte in quoted NUT value"),
        ("\"a\"b", "invalid text after quoted NUT value"),
        ("\"a\"\"b\"", "invalid text after quoted NUT value"),
        ("ab\"c", "invalid unquoted NUT token"),
        ("a\u{1}b", "invalid unquoted NUT token"),
        ("a\u{b}b", "invalid unquoted NUT token"),
    ];
    for (line, message) in cases {
        assert_eq!(parse_protocol_tokens(line), Err(bad(message)), "{line:?}");
    }
    // The first thing that is wrong is reported.
    assert_eq!(
        parse_protocol_tokens("\"a\tb"),
        Err(bad("control byte in quoted NUT value"))
    );
}

#[test]
fn requests_name_the_ups_and_the_variable() {
    assert_eq!(variable_request("ups", "battery.charge"), "GET VAR ups battery.charge\n");
    // A request is one line of four tokens.
    assert_eq!(
        tokens(&variable_request("ups", "battery.charge")),
        vec!["GET", "VAR", "ups", "battery.charge"]
    );
}

#[test]
fn replies_with_a_value() {
    assert_eq!(
        interpret_reply("VAR ups battery.charge \"87\"\n", "ups", "battery.charge"),
        Ok(Some("87".to_string()))
    );
    assert_eq!(
        interpret_reply("VAR ups battery.charge \"87\"\r\n", "ups", "battery.charge"),
        Ok(Some("87".to_string()))
    );
    assert_eq!(
        interpret_reply("VAR ups battery.charge 87\n\r\n", "ups", "battery.charge"),
        Ok(Some("87".to_string()))
    );
    // Quotes, backslashes and spaces in a value read back.
    assert_eq!(
        interpret_reply("VAR ups x \" a \\\"b\\\" \\\\ \"\n", "ups", "x"),
        Ok(Some(" a \"b\" \\ ".to_string()))
    );
}

#[test]
fn replies_without_a_value() {
    assert_eq!(interpret_reply("ERR VAR-NOT-SUPPORTED\n", "ups", "x"), Ok(None));
    assert_eq!(interpret_reply("ERR VAR-NOT-AVAILABLE\n", "ups", "x"), Ok(None));
    assert_eq!(
        interpret_reply("ERR UNKNOWN-UPS\n", "ups", "x"),
        Err(bad("NUT returned: ERR UNKNOWN-UPS"))
    );
    assert_eq!(
        interpret_reply("ERR VAR-NOT-SUPPORTED now\r\n", "ups", "x"),
        Err(bad("NUT returned: ERR VAR-NOT-SUPPORTED now"))
    );
    assert_eq!(interpret_reply("ERR\n", "ups", "x"), Err(bad("NUT returned: ERR")));
}

#[test]
fn replies_to_something_else() {
    for line in [
        "VAR other x \"1\"",
        "VAR ups y \"1\"",
        "VAR ups x",
        "VAR ups x 1 2",
        "OK",
        "",
    ] {
        assert_eq!(
            interpret_reply(&format!("{line}\n"), "ups", "x"),
            Err(bad(&format!("unexpected response for x: {line}")))
        );
    }
}

#[test]
fn broken_replies() {
    assert_eq!(
        interpret_reply("", "ups", "x"),
        Err(Failure {
            kind: FailureKind::UnexpectedEof,
            message: "NUT closed the connection".to_string()
        })
    );
    assert_eq!(
        interpret_reply("VAR ups x \"1\"", "ups", "x"),
        Err(bad("NUT response is not newline-terminated"))
    );
    assert_eq!(
        interpret_reply("VAR ups x \"1\n", "ups", "x"),
        Err(bad("unterminated quote in NUT response"))
    );
    let value = "v".repeat(MAX_RESPONSE_LENGTH - "VAR ups x \"\"\n".len());
    assert_eq!(
        interpret_reply(&format!("VAR ups x \"{value}\"\n"), "ups", "x"),
        Ok(Some(value.clone()))
    );
    assert_eq!(
        interpret_reply(&format!("VAR ups x \"{value}v\"\n"), "ups", "x"),
        Err(bad("NUT response is too long"))
    );
}

#[test]
fn required_values() {
    assert_eq!(required_value(Some("1".to_string()), "x"), Ok("1".to_string()));
    assert_eq!(
        required_value(None, "ups.status"),
        Err(bad("required NUT variable is not available: ups.status"))
    );
}

#[test]
fn names_in_requests() {
    for name in ["ups", "UPS-1", "a.b_c-9", "0"] {
        assert_eq!(validate_protocol_token(name, "UPS name"), Ok(()));
    }
    for name in ["", " ", "a b", "a\n", "\u{e9}", "a/b", "a\"", "a@b"] {
        assert_eq!(
            validate_protocol_token(name, "UPS name"),
            Err("UPS name may contain only ASCII letters, digits, '.', '_' and '-'".to_string())
        );
    }
}

#[test]
fn status_table() {
    let cases = [
        ("OL CHRG", 50, (1, 1)),
        ("ONLINE CHRG", 100, (1, 1)),
        ("OL", 100, (4, 1)),
        ("OL", 99, (3, 1)),
        ("ONLINE", 0, (3, 1)),
        ("OL DISCHRG", 50, (2, 1)),
        ("OB", 50, (2, 0)),
        ("OB DISCHRG", 100, (2, 0)),
        ("ONBAT", 50, (2, 0)),
        ("ONBATT", 50, (2, 0)),
        ("OL LB RB CHRG", 10, (1, 1)),
        ("OL FSD-2", 10, (3, 1)),
        (" OL\tCHRG ", 50, (1, 1)),
    ];
    for (value, capacity, expected) in cases {
        assert_eq!(map_status(value, capacity), Ok(expected), "{value}");
    }
}

#[test]
fn invalid_statuses() {
    for value in ["", "  ", "ol", "OL,CHRG", "OL \u{e9}", "OL_CHRG"] {
        assert_eq!(
            map_status(value, 50),
            Err(bad(&format!("invalid ups.status value: {value}")))
        );
    }
    for value in ["CHRG", "OL OB", "ONLINE ONBATT", "BYPASS"] {
        assert_eq!(
            map_status(value, 50),
            Err(bad(&format!("ups.status must contain exactly one of OL or OB: {value}")))
        );
    }
    for value in ["OL CHRG DISCHRG", "OB CHRG"] {
        assert_eq!(
            map_status(value, 50),
            Err(bad(&format!("ups.status contains conflicting charge states: {value}")))
        );
    }
}

#[test]
fn charging_needs_mains_power() {
    for value in ["OL CHRG", "OL", "OB", "OL DISCHRG", "OB CHRG", "CHRG"] {
        if let Ok((status, ac_online)) = map_status(value, 50) {
            assert!(status != 1 || ac_online == 1);
        }
    }
}

#[test]
fn order_of_status_words_does_not_matter() {
    assert_eq!(map_status("CHRG OL", 50), map_status("OL CHRG", 50));
    assert_eq!(map_status("OL  CHRG OL", 50), map_status("CHRG OL CHRG", 50));
}
