use minazuki::cpufreq::{policies, read_khz};
use minazuki::freq::{info, split_freq, FreqUnit};
use minazuki::knob::{
    governor_available, join, Cpu, EngageStep, Engagement, PerfWrite, PolicyProbe, Snapshot,
};
use minazuki::path_order::{path_parts_of, path_place, Placement};
use minazuki::scx::reports_idle;
use minazuki::turbo::{read_value, state, write_value, Control};

#[test]
fn governors_are_whole_words() {
    assert!(governor_available("conservative ondemand performance schedutil\n", "performance"));
    assert!(!governor_available("powersave performance2", "performance"));
    assert!(governor_available("performance", "performance"));
    assert!(!governor_available("", "performance"));
}

#[test]
fn join_puts_one_separator() {
    assert_eq!(join("/sys/policy0", "scaling_governor"), "/sys/policy0/scaling_governor");
    assert_eq!(join("/sys/policy0/", "x"), "/sys/policy0/x");
    assert_eq!(join("", "x"), "x");
}

#[test]
fn cpu_knob_plans_per_policy() {
    let probes = vec![
        PolicyProbe {
            dir: "/p0".into(),
            available_governors: Some("powersave performance".into()),
            has_epp: true,
        },
        PolicyProbe { dir: "/p1".into(), available_governors: None, has_epp: false },
        PolicyProbe { dir: "/p2".into(), available_governors: Some("schedutil".into()), has_epp: true },
    ];
    let w = Cpu.perf_writes(&probes);
    let got: Vec<(String, String)> = w.into_iter().map(|w| (w.path, w.value)).collect();
    let p = |a: &str| (a.to_string(), "performance".to_string());
    assert_eq!(
        got,
        vec![
            p("/p0/scaling_governor"),
            p("/p0/energy_performance_preference"),
            p("/p2/energy_performance_preference"),
        ]
    );
    assert_eq!(Cpu.name(), "cpu");
}

/// Runs an engagement against an in-memory set of files; `fail` names paths whose
/// writes fail.
fn run_engagement(
    files: &mut Vec<(String, String)>,
    writes: Vec<PerfWrite>,
    fail: &[&str],
) -> Snapshot {
    let (mut run, mut step) = Engagement::new(Snapshot::new(), writes);
    loop {
        step = match step {
            EngageStep::Done => return run.into_snapshot(),
            EngageStep::Read(i) => {
                let path = run.writes()[i].path.clone();
                let cur = files.iter().find(|(p, _)| *p == path).map(|(_, v)| v.clone());
                run.on_read(cur.as_deref())
            }
            EngageStep::Write(i) => {
                let (path, value) = (run.writes()[i].path.clone(), run.writes()[i].value.clone());
                if fail.contains(&path.as_str()) {
                    run.on_write(false)
                } else {
                    for f in files.iter_mut() {
                        if f.0 == path {
                            f.1 = value.clone();
                        }
                    }
                    run.on_write(true)
                }
            }
        };
    }
}

#[test]
fn engagement_records_only_changed_settings() {
    let mut files = vec![
        ("/gov0".to_string(), "powersave\n".to_string()),
        ("/gov1".to_string(), "performance\n".to_string()),
        ("/epp0".to_string(), " balance_power \n".to_string()),
        ("/epp1".to_string(), "default".to_string()),
    ];
    let w = |p: &str| PerfWrite::new(p.into(), "performance".into());
    let writes = vec![w("/gov0"), w("/gov1"), w("/epp0"), w("/missing"), w("/epp1")];
    let snap = run_engagement(&mut files, writes, &["/epp1"]);
    assert_eq!(
        snap.entries().clone(),
        vec![
            ("/epp0".to_string(), "balance_power".to_string()),
            ("/gov0".to_string(), "powersave".to_string()),
        ]
    );
    assert_eq!(files[0].1, "performance");
    assert_eq!(files[2].1, "performance");
    assert_eq!(files[3].1, "default");
    // restoring puts the old values back
    for (p, v) in snap.entries() {
        for f in files.iter_mut() {
            if &f.0 == p {
                f.1 = v.clone();
            }
        }
    }
    assert_eq!(files[0].1, "powersave");
    assert_eq!(files[1].1, "performance\n");
    assert_eq!(files[2].1, "balance_power");
}

#[test]
fn engagement_of_nothing_is_done() {
    let (run, step) = Engagement::new(Snapshot::new(), vec![]);
    assert_eq!(step, EngageStep::Done);
    assert!(run.into_snapshot().is_empty());
}

#[test]
fn policies_are_filtered_and_sorted() {
    let names: Vec<String> =
        ["policy2", "boost", "policy10", "policy0", "ondemand"].iter().map(|s| s.to_string()).collect();
    assert_eq!(policies(&names), vec!["policy0", "policy10", "policy2"]);
}

#[test]
fn khz_and_info() {
    assert_eq!(read_khz("3600000\n"), Some(3_600_000));
    assert_eq!(read_khz("x"), None);
    let f = info(Some("2000000\n"), Some("4500000\n")).expect("info");
    assert_eq!((f.max_khz, f.hw_max_khz), (2_000_000, 4_500_000));
    assert!(info(Some("1"), None).is_none());
    assert!(info(Some("z"), Some("1")).is_none());
}

#[test]
fn turbo_state_and_round_trip() {
    assert_eq!(state(Some(Control::NoTurbo), Some("0\n")), Some(true));
    assert_eq!(state(Some(Control::NoTurbo), Some("1\n")), Some(false));
    assert_eq!(state(Some(Control::Boost), Some("1")), Some(true));
    assert_eq!(state(Some(Control::Boost), Some("2")), Some(false));
    assert_eq!(state(None, Some("1")), None);
    assert_eq!(state(Some(Control::Boost), None), None);
    assert_eq!(state(Some(Control::Boost), Some("on")), None);
    assert_eq!(read_value(" 7 "), Some(7));
    for c in [Control::NoTurbo, Control::Boost] {
        for on in [true, false] {
            assert_eq!(state(Some(c), Some(write_value(c, on))), Some(on));
        }
    }
}

#[test]
fn scx_idle_text() {
    assert!(reports_idle(b"No SCX scheduler running\n"));
    assert!(!reports_idle(b"running scx_lavd in gaming mode"));
}

#[test]
fn snapshot_keeps_path_order() {
    let mut s = Snapshot::new();
    for (p, v) in [("/sys/b", "1"), ("/sys/a-b", "2"), ("/sys/a/c", "3"), ("/sys/a", "4"), ("/sys/b", "5")] {
        s.insert(p.to_string(), v.to_string());
    }
    let keys: Vec<&str> = s.entries().iter().map(|(p, _)| p.as_str()).collect();
    assert_eq!(keys, vec!["/sys/a", "/sys/a/c", "/sys/a-b", "/sys/b"]);
    assert_eq!(s.len(), 4);
    assert_eq!(s.entries()[3].1, "5");
}

#[test]
fn paths_compare_by_components() {
    assert_eq!(path_place("/sys/a/c", "/sys/a-b"), Placement::Before);
    assert_eq!(path_place("/sys/a-b", "/sys/a/c"), Placement::After);
    assert_eq!(path_place("/x", "./x"), Placement::Before);
    assert_eq!(path_place("./x", "../x"), Placement::Before);
    assert_eq!(path_place("../x", "x"), Placement::Before);
    assert_eq!(path_place("a/./b", "a/b"), Placement::Same);
    assert_eq!(path_place("/a//b/", "/a/b"), Placement::Same);
    assert_eq!(path_place("a/b", "a/b"), Placement::Same);
    assert_eq!(path_place("a/b", "a/c"), Placement::Before);
    assert_eq!(path_parts_of("/a//b/./..").len(), 4);
    assert_eq!(path_parts_of("./a")[0].0, 1);
    assert_eq!(path_parts_of("a/..")[1].0, 2);
    assert_eq!(path_parts_of("/a")[1], (3, vec!['a']));
    assert!(path_parts_of("").is_empty());
}

#[test]
fn second_engagement_changes_nothing() {
    let mut files = vec![
        ("/gov0".to_string(), "powersave".to_string()),
        ("/epp0".to_string(), "balance_power\n".to_string()),
    ];
    let w = |p: &str| PerfWrite::new(p.into(), "performance".into());
    let first = run_engagement(&mut files, vec![w("/gov0"), w("/epp0")], &[]);
    assert_eq!(first.len(), 2);
    let after = files.clone();
    let second = run_engagement(&mut files, vec![w("/gov0"), w("/epp0")], &[]);
    assert!(second.is_empty());
    assert_eq!(files, after);
}

#[test]
fn snapshot_takes_spellings_of_one_path_as_one() {
    let mut s = Snapshot::new();
    s.insert("/a/b".to_string(), "1".to_string());
    s.insert("/a//b".to_string(), "2".to_string());
    s.insert("/a/b/".to_string(), "3".to_string());
    s.insert("/a/./b".to_string(), "4".to_string());
    assert_eq!(s.len(), 1);
    assert_eq!(s.entries().clone(), vec![("/a/b".to_string(), "4".to_string())]);
}

#[test]
fn failed_writes_to_a_repeated_path_leave_it_alone() {
    let mut files = vec![("/p".to_string(), "x\n".to_string()), ("/q".to_string(), "y".to_string())];
    let w = |p: &str, v: &str| PerfWrite::new(p.into(), v.into());
    let writes = vec![w("/p", "a"), w("/q", "b"), w("/p", "c")];
    let snap = run_engagement(&mut files, writes, &["/p"]);
    assert_eq!(snap.entries().clone(), vec![("/q".to_string(), "y".to_string())]);
    assert_eq!(files[0].1, "x\n");
    for (p, v) in snap.entries() {
        for f in files.iter_mut() {
            if &f.0 == p {
                f.1 = v.clone();
            }
        }
    }
    assert_eq!(files, vec![("/p".to_string(), "x\n".to_string()), ("/q".to_string(), "y".to_string())]);
}

#[test]
fn frequency_units_by_suffix() {
    assert_eq!(split_freq("3.5GHz"), ("3.5".to_string(), FreqUnit::Giga));
    assert_eq!(split_freq(" 2800 MHz "), ("2800 ".to_string(), FreqUnit::Mega));
    assert_eq!(split_freq("4000000k"), ("4000000".to_string(), FreqUnit::Kilo));
    assert_eq!(split_freq("4.2g"), ("4.2".to_string(), FreqUnit::Giga));
    assert_eq!(split_freq("3"), ("3".to_string(), FreqUnit::Bare));
    assert_eq!(split_freq("2800hz"), ("2800".to_string(), FreqUnit::Bare));
    assert_eq!(split_freq(""), ("".to_string(), FreqUnit::Bare));
    assert_eq!(split_freq("Hz"), ("".to_string(), FreqUnit::Bare));
}
