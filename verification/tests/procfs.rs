use minazuki::proc::{basename, cmdline_text, is_exe, parse_ppid, select_name};

#[test]
fn exe_suffix_in_any_case() {
    assert!(is_exe(b"game.exe"));
    assert!(is_exe(b"GAME.EXE"));
    assert!(is_exe(b".eXe"));
    assert!(!is_exe(b"exe"));
    assert!(!is_exe(b"game.exe2"));
}

#[test]
fn basename_takes_either_separator() {
    assert_eq!(basename(b"/usr/bin/wine"), &b"wine"[..]);
    assert_eq!(basename(b"C:\\Games\\x.exe"), &b"x.exe"[..]);
    assert_eq!(basename(b"Z:/a\\b/c.exe"), &b"c.exe"[..]);
    assert_eq!(basename(b"plain"), &b"plain"[..]);
    assert_eq!(basename(b"dir/"), &b""[..]);
}

#[test]
fn name_prefers_the_windows_executable() {
    let cmd = b"/usr/bin/wine64\0Z:\\Games\\Genshin\\GenshinImpact.exe\0-arg\0";
    assert_eq!(select_name(cmd), Some("GenshinImpact.exe".to_string()));
    assert_eq!(select_name(b"/usr/bin/python3\0script.py\0"), Some("python3".to_string()));
    assert_eq!(select_name(b"\0/\0"), None);
    assert_eq!(select_name(b""), None);
    assert_eq!(select_name(b"dir/\0x"), Some("x".to_string()));
}

#[test]
fn name_decodes_with_replacement() {
    assert_eq!(select_name(b"a\xffb"), Some("a\u{fffd}b".to_string()));
}

#[test]
fn cmdline_text_joins_arguments() {
    assert_eq!(cmdline_text(b"steam\0-silent\0"), Some("steam -silent".to_string()));
    assert_eq!(cmdline_text(b"\0\0"), None);
    assert_eq!(cmdline_text(b""), None);
}

#[test]
fn ppid_from_status() {
    let status = "Name:\tbash\nState:\tS\nTgid:\t12\nPPid:\t  345\nTracerPid:\t0\n";
    assert_eq!(parse_ppid(status), Some(345));
    assert_eq!(parse_ppid("Name:\tx\n"), None);
    assert_eq!(parse_ppid("PPid:\tx\nPPid:\t3\n"), None);
    assert_eq!(parse_ppid("PPid:\t7\r\n"), Some(7));
    assert_eq!(parse_ppid("PPid:\t9"), Some(9));
}
