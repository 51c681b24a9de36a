use minazuki::knob::Snapshot;
use minazuki::state::State;
use minazuki::ui::{dim, format_row, good, head, mode_for, state_line, summarize, Mode};

#[test]
fn mode_follows_terminal_and_environment() {
    assert_eq!(mode_for(false, false, None), Mode::Off);
    assert_eq!(mode_for(true, true, Some("term")), Mode::Off);
    assert_eq!(mode_for(true, false, Some("ansi")), Mode::Term);
    assert_eq!(mode_for(true, false, Some("16")), Mode::Term);
    assert_eq!(mode_for(true, false, Some("truecolor")), Mode::True);
    assert_eq!(mode_for(true, false, None), Mode::True);
}

#[test]
fn paint_wraps_in_escape_codes() {
    assert_eq!(head("x", Mode::Off), "x");
    assert_eq!(good("ok", Mode::Term), "\x1b[32mok\x1b[0m");
    assert_eq!(dim("d", Mode::True), "\x1b[38;2;120;120;138md\x1b[0m");
    assert_eq!(head("h", Mode::Term), "\x1b[1;36mh\x1b[0m");
}

#[test]
fn row_pads_the_name_and_counts() {
    let r = format_row("scaling_governor", "powersave", "performance", 4, Mode::Off);
    assert_eq!(r, format!("  {:<31} powersave → performance  ×4", "scaling_governor"));
    let r = format_row("epp", "performance", "performance", 1, Mode::Off);
    assert_eq!(r, format!("  {:<31} performance  (already set)", "epp"));
    let long = "x".repeat(40);
    let r = format_row(&long, "a", "b", 0, Mode::Off);
    assert_eq!(r, format!("  {long} a → b"));
}

#[test]
fn summary_groups_equal_rows_in_order() {
    let row = |a: &str, b: &str, c: &str| (a.to_string(), b.to_string(), c.to_string());
    let rows = vec![
        row("scaling_governor", "powersave", "performance"),
        row("energy_performance_preference", "balance", "performance"),
        row("scaling_governor", "powersave", "performance"),
        row("scaling_governor", "performance", "performance"),
    ];
    let out = summarize(&rows, Mode::Off);
    assert_eq!(
        out,
        vec![
            format_row("scaling_governor", "powersave", "performance", 2, Mode::Off),
            format_row("energy_performance_preference", "balance", "performance", 1, Mode::Off),
            format_row("scaling_governor", "performance", "performance", 1, Mode::Off),
        ]
    );
    assert!(summarize(&vec![], Mode::True).is_empty());
}

#[test]
fn state_line_names_game_and_scheduler() {
    let st = State { snapshot: Snapshot::new(), game: Some("cs2".into()), scheduler: Some("scx_lavd".into()) };
    assert_eq!(state_line(Some(&st), Mode::Off), "● engaged  cs2  via scx_lavd");
    let bare = State { snapshot: Snapshot::new(), game: None, scheduler: None };
    assert_eq!(state_line(Some(&bare), Mode::Off), "● engaged");
    assert_eq!(state_line(None, Mode::Off), "○ idle");
    assert_eq!(state_line(None, Mode::Term), "\x1b[2m○\x1b[0m \x1b[2midle\x1b[0m");
}
