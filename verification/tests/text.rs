use riffol::{parse_pid_text, parse_u32, u64_to_string};

#[test]
fn parse_u32_accepts_plain_decimals() {
    assert_eq!(parse_u32("0"), Some(0));
    assert_eq!(parse_u32("4242"), Some(4242));
    assert_eq!(parse_u32("4294967295"), Some(u32::MAX));
}

#[test]
fn parse_u32_rejects_empty_signs_and_junk() {
    assert_eq!(parse_u32(""), None);
    assert_eq!(parse_u32("+1"), None);
    assert_eq!(parse_u32("-1"), None);
    assert_eq!(parse_u32("12a"), None);
    assert_eq!(parse_u32(" 12"), None);
}

#[test]
fn parse_u32_rejects_overflow() {
    assert_eq!(parse_u32("4294967296"), None);
    assert_eq!(parse_u32("99999999999999999999"), None);
}

#[test]
fn pid_file_first_line_is_the_pid() {
    assert_eq!(parse_pid_text("4242\n"), Some(4242));
    assert_eq!(parse_pid_text("4242"), Some(4242));
    assert_eq!(parse_pid_text("4242\nsecond line ignored\n"), Some(4242));
}

#[test]
fn empty_pid_file_is_unreadable() {
    // An empty pid-file yields no PID at all.
    assert_eq!(parse_pid_text(""), None);
    assert_eq!(parse_pid_text("\n123\n"), None);
}

#[test]
fn garbled_pid_file_is_unreadable() {
    assert_eq!(parse_pid_text("not a pid\n"), None);
    assert_eq!(parse_pid_text("12 34\n"), None);
}

#[test]
fn u64_renders_in_decimal() {
    assert_eq!(u64_to_string(0), "0");
    assert_eq!(u64_to_string(7), "7");
    assert_eq!(u64_to_string(100), "100");
    assert_eq!(u64_to_string(18446744073709551615), "18446744073709551615");
}

#[test]
fn render_then_parse_round_trips() {
    for n in [0u64, 1, 9, 10, 99, 4096, 4294967295] {
        let s = u64_to_string(n);
        assert_eq!(parse_u32(&s), Some(n as u32));
    }
}
