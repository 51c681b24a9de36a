use minazuki::cli::{is_reset_word, parse_command, parse_cpu_control, parse_onoff, Command, CpuControl};
use minazuki::text::{chars_of, contains, decimal_text, parse_u32, parse_u64, parse_u8, same_text, starts_with, trim};

#[test]
fn trim_removes_unicode_white_space() {
    assert_eq!(trim("  abc \n"), "abc");
    assert_eq!(trim("\u{a0}x\u{3000}"), "x");
    assert_eq!(trim(" \t "), "");
    assert_eq!(trim("a b"), "a b");
}

#[test]
fn parse_follows_str_parse() {
    assert_eq!(parse_u32("42"), Some(42));
    assert_eq!(parse_u32("+7"), Some(7));
    assert_eq!(parse_u32("+"), None);
    assert_eq!(parse_u32(""), None);
    assert_eq!(parse_u32("-1"), None);
    assert_eq!(parse_u32("4294967295"), Some(u32::MAX));
    assert_eq!(parse_u32("4294967296"), None);
    assert_eq!(parse_u32(" 1"), None);
    assert_eq!(parse_u8("255"), Some(255));
    assert_eq!(parse_u8("256"), None);
    assert_eq!(parse_u64("18446744073709551615"), Some(u64::MAX));
    assert_eq!(parse_u64("18446744073709551616"), None);
    for s in ["0", "12", "007", "+3", "a", "1a", "99999999999"] {
        assert_eq!(parse_u32(s), s.parse::<u32>().ok(), "{s}");
    }
}

#[test]
fn contains_and_prefix() {
    assert!(contains("steam proton run", "proton"));
    assert!(!contains("steam", "proton"));
    assert!(contains("abc", ""));
    assert!(starts_with("policy0", "policy"));
    assert!(!starts_with("poli", "policy"));
    assert!(same_text("é", "é"));
    assert!(!same_text("a", "ab"));
    assert_eq!(chars_of("héllo").len(), 5);
}

#[test]
fn onoff_words_in_any_case() {
    assert_eq!(parse_onoff("ON"), Ok(true));
    assert_eq!(parse_onoff("Enable"), Ok(true));
    assert_eq!(parse_onoff("1"), Ok(true));
    assert_eq!(parse_onoff("FALSE"), Ok(false));
    assert_eq!(parse_onoff("disable"), Ok(false));
    assert_eq!(parse_onoff("Maybe"), Err("maybe".to_string()));
}

#[test]
fn command_words() {
    assert_eq!(parse_command(None), Command::Status);
    assert_eq!(parse_command(Some("daemon")), Command::Daemon);
    assert_eq!(parse_command(Some("cpu")), Command::Cpu);
    assert_eq!(parse_command(Some("Status")), Command::Unknown("Status".into()));
    assert_eq!(parse_cpu_control(None), CpuControl::Summary);
    assert_eq!(parse_cpu_control(Some("freq")), CpuControl::Freq);
    assert_eq!(parse_cpu_control(Some("gpu")), CpuControl::Unknown("gpu".into()));
    assert!(is_reset_word("ReSeT"));
    assert!(!is_reset_word("resets"));
}

#[test]
fn white_space_table_matches_char_is_whitespace() {
    for u in 0u32..0x11000 {
        if let Some(c) = char::from_u32(u) {
            let s = c.to_string();
            assert_eq!(trim(&s).is_empty(), c.is_whitespace(), "U+{u:04X}");
            assert_eq!(trim(&s), s.trim());
        }
    }
}

#[test]
fn decimal_text_writes_base_ten() {
    assert_eq!(decimal_text(0), "0");
    assert_eq!(decimal_text(7), "7");
    assert_eq!(decimal_text(10), "10");
    assert_eq!(decimal_text(12345), "12345");
    assert_eq!(decimal_text(usize::MAX), usize::MAX.to_string());
}
