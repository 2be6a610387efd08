use panel_sync::chars::{split_words, trim};
use panel_sync::command::{parse_command, Command};
use panel_sync::console::{color_fmt_err, color_fmt_log, color_fmt_ok, help_lines, split_placeholders};
use panel_sync::names::TrimNameSuffix;
use panel_sync::number::{parse_bool, parse_i32, parse_i64, push_int_text};

const T_OK: &str = "\x1b[1m\x1b[32m";
const T_ERR: &str = "\x1b[1m\x1b[31m";
const T_LOG: &str = "\x1b[1m";
const V: &str = "\x1b[2m";
const R: &str = "\x1b[0m";

#[test]
fn ok_message_with_one_value() {
    let out = color_fmt_ok("Successfully added user: {}", &["bob"]);
    let want = format!("{T_OK}Successfully added user: {R}{V}bob{R}{T_OK}{R}{R}");
    assert_eq!(out, want);
}

#[test]
fn log_message_without_placeholder() {
    let out = color_fmt_log("Available commands:", &[]);
    assert_eq!(out, format!("{T_LOG}Available commands:{R}{R}"));
}

#[test]
fn err_message_with_two_values() {
    let out = color_fmt_err("Failed to extend user: {} ({})", &["ann", "x"]);
    let want = format!(
        "{T_ERR}Failed to extend user: {R}{V}ann{R}{T_ERR} ({R}{V}x{R}{T_ERR}){R}{R}"
    );
    assert_eq!(out, want);
}

#[test]
fn surplus_values_are_dropped_and_surplus_placeholders_left_empty() {
    assert_eq!(color_fmt_log("a", &["x", "y"]), format!("{T_LOG}a{R}{V}x{R}{R}"));
    assert_eq!(color_fmt_log("{}{}", &[]), format!("{T_LOG}{R}{T_LOG}{R}{T_LOG}{R}{R}"));
    assert_eq!(color_fmt_log("", &[]), format!("{T_LOG}{R}{R}"));
}

#[test]
fn placeholders_split_like_str_split() {
    for s in ["", "{}", "a{}b", "{{}}", "{}{}x", "no braces", "{ }", "a{}}{b"] {
        let want: Vec<String> = s.split("{}").map(|p| p.to_string()).collect();
        assert_eq!(split_placeholders(s), want, "{s:?}");
    }
}

#[test]
fn help_has_seven_log_lines() {
    let lines = help_lines();
    assert_eq!(lines.len(), 7);
    assert_eq!(lines[0], color_fmt_log("Available commands:", &[]));
    assert_eq!(lines[1], color_fmt_log("adduser {} - Add a new user", &["<name>"]));
    assert_eq!(lines[6], color_fmt_log("quit/exit - Exit the program", &[]));
}

#[test]
fn trim_matches_std() {
    for s in ["", "  ", " a b ", "\t\nx\u{3000}", "\u{85}y\u{a0}", "z"] {
        assert_eq!(trim(s), s.trim(), "{s:?}");
    }
}

#[test]
fn words_match_split_whitespace() {
    for s in ["", "   ", "adduser bob", "  a\t b\n\nc  ", "x\u{2003}y"] {
        let want: Vec<String> = s.split_whitespace().map(|w| w.to_string()).collect();
        assert_eq!(split_words(s), want, "{s:?}");
    }
}

#[test]
fn name_suffix_is_trimmed() {
    assert_eq!("alice-1".trim_name_suffix(), "alice");
    assert_eq!("bob".trim_name_suffix(), "bob");
    assert_eq!("a-b-c".trim_name_suffix(), "a");
    assert_eq!("-x".trim_name_suffix(), "");
    assert_eq!("".trim_name_suffix(), "");
}

#[test]
fn trimming_a_trimmed_name_changes_nothing() {
    for s in ["alice-1", "a-b-c", "plain", "-"] {
        let once = s.trim_name_suffix();
        assert_eq!(once.as_str().trim_name_suffix(), once);
    }
}

#[test]
fn integers_parse_like_std() {
    let cases = [
        "", "-", "+", "0", "-0", "+7", "42", "-42", " 1", "1 ", "12a", "9223372036854775807",
        "9223372036854775808", "-9223372036854775808", "-9223372036854775809", "٣", "00012",
    ];
    for s in cases {
        assert_eq!(parse_i64(s), s.parse::<i64>().ok(), "{s:?}");
        assert_eq!(parse_i32(s), s.parse::<i32>().ok(), "{s:?}");
    }
    assert_eq!(parse_i32("2147483648"), None);
    assert_eq!(parse_i32("-2147483648"), Some(i32::MIN));
}

#[test]
fn booleans_parse_like_std() {
    for s in ["true", "false", "True", "", "yes", "true "] {
        assert_eq!(parse_bool(s), s.parse::<bool>().ok(), "{s:?}");
    }
}

#[test]
fn written_integers_read_back() {
    for n in [0i64, 7, -7, 10, 1234567890, i64::MAX, i64::MIN] {
        let mut text = String::from("");
        push_int_text(&mut text, n);
        assert_eq!(text, n.to_string());
        assert_eq!(parse_i64(&text), Some(n));
    }
}

#[test]
fn commands_are_read_from_words() {
    assert!(matches!(parse_command("adduser bob"), Command::AddUser(n) if n == "bob"));
    assert!(matches!(parse_command("  adddays bob 5 "), Command::AddDays(n, 5) if n == "bob"));
    assert!(matches!(parse_command("adddays bob x"), Command::AddDays(n, 0) if n == "bob"));
    assert!(matches!(parse_command("changestatus bob true"), Command::ChangeStatus(n, true) if n == "bob"));
    assert!(matches!(parse_command("changestatus bob yes"), Command::ChangeStatus(_, false)));
    assert!(matches!(parse_command("help"), Command::Help));
    assert!(matches!(parse_command("sync"), Command::Sync));
    assert!(matches!(parse_command("quit"), Command::Quit));
    assert!(matches!(parse_command("exit"), Command::Quit));
    assert!(matches!(parse_command(""), Command::Unknown));
    assert!(matches!(parse_command("adduser"), Command::Unknown));
    assert!(matches!(parse_command("help me"), Command::Unknown));
}

#[test]
fn message_kinds_differ_only_in_style() {
    for (template, vars) in [
        ("Successfully added user: {}", &["bob"][..]),
        ("{} and {} ({})", &["a", "b"][..]),
        ("plain", &[][..]),
    ] {
        let ok = color_fmt_ok(template, vars);
        assert_eq!(color_fmt_log(template, vars), ok.replace(T_OK, T_LOG));
        assert_eq!(color_fmt_err(template, vars).replace(T_ERR, T_OK), ok);
    }
}
