use minazuki::config::{default_game_names, lowered, Config, UserSettings};
use minazuki::game::{is_proton_process, proton_markers, Matcher, ProtonWalk, WalkStep};

fn s(v: &[&str]) -> Vec<String> {
    v.iter().map(|x| x.to_string()).collect()
}

fn config() -> Config {
    let user = UserSettings {
        games: s(&["MyGame.EXE"]),
        ignore: s(&["Launcher.exe"]),
        scheduler: Some("scx_bpfland".into()),
        schedulers: vec![("Genshin".into(), "scx_lavd".into())],
    };
    Config::from_parts(&s(&["explorer.exe"]), Some(user))
}

#[test]
fn config_lowercases_and_merges() {
    let c = config();
    assert_eq!(c.system_exes, s(&["explorer.exe", "launcher.exe"]));
    let mut games = default_game_names();
    games.push("mygame.exe".into());
    assert_eq!(c.game_names, games);
    assert_eq!(c.default_scheduler.as_deref(), Some("scx_bpfland"));
    assert_eq!(c.scheduler_rules, vec![("genshin".to_string(), "scx_lavd".to_string())]);
    assert!(c.wants_scheduler());
    let bare = Config::from_parts(&s(&["A.EXE"]), None);
    assert_eq!(bare.system_exes, s(&["a.exe"]));
    assert_eq!(bare.game_names.len(), 8);
    assert!(!bare.wants_scheduler());
}

#[test]
fn lowered_uses_unicode_lower_case() {
    assert_eq!(lowered(&s(&["ÉLAN.EXE", "Abc"])), s(&["élan.exe", "abc"]));
}

#[test]
fn listed_game_is_a_game_without_proton() {
    let m = Matcher::new(&config());
    let g = m.detect("CS2", Some("/opt/cs2 -novid"), false).expect("game");
    assert_eq!(g.name, "CS2");
    assert_eq!(g.scheduler.as_deref(), Some("scx_bpfland"));
    assert!(!m.needs_proton_check("cs2"));
}

#[test]
fn windows_exe_needs_proton() {
    let m = Matcher::new(&config());
    assert!(m.needs_proton_check("Unknown.exe"));
    assert!(m.detect("Unknown.exe", None, false).is_none());
    assert!(m.detect("Unknown.exe", None, true).is_some());
    assert!(!m.needs_proton_check("Launcher.EXE"));
    assert!(m.detect("launcher.exe", None, true).is_none());
    assert!(m.detect("bash", None, true).is_none());
}

#[test]
fn first_matching_rule_picks_the_scheduler() {
    let m = Matcher::new(&config());
    let g = m
        .detect("GenshinImpact.exe", Some("Z:\\GENSHIN\\GenshinImpact.exe"), false)
        .expect("game");
    assert_eq!(g.scheduler.as_deref(), Some("scx_lavd"));
    assert_eq!(m.scheduler_for(None).as_deref(), Some("scx_bpfland"));
}

#[test]
fn proton_markers_look_at_comm_and_cmdline() {
    assert!(is_proton_process(Some("Wine64-Preloader"), None));
    assert!(is_proton_process(Some("Reaper"), None));
    assert!(is_proton_process(Some("umu-run"), None));
    assert!(is_proton_process(None, Some(b"/home/u/.steam/Proton 9.0/proton\0run")));
    assert!(!is_proton_process(Some("bash"), Some(b"/bin/bash")));
    assert!(!is_proton_process(None, None));
    assert!(proton_markers(Some("wine"), None));
    assert!(!proton_markers(Some("WINE"), None));
}

fn run_walk(pid: u32, parents: &[(u32, u32)], proton: &[u32]) -> (bool, usize) {
    let (mut w, mut step) = ProtonWalk::start(pid);
    let mut asked = 0;
    loop {
        match step {
            WalkStep::Done(b) => return (b, asked),
            WalkStep::ReadParent(p) => {
                asked += 1;
                let parent = parents.iter().find(|(c, _)| *c == p).map(|(_, q)| *q);
                step = w.on_parent(parent);
            }
            WalkStep::CheckParent(p) => {
                asked += 1;
                step = w.on_check(proton.contains(&p));
            }
        }
    }
}

#[test]
fn walk_finds_a_proton_ancestor() {
    let parents = [(100, 90), (90, 80), (80, 1)];
    assert_eq!(run_walk(100, &parents, &[80]).0, true);
    assert_eq!(run_walk(100, &parents, &[]).0, false);
    assert_eq!(run_walk(1, &parents, &[1]), (false, 0));
    assert_eq!(run_walk(5, &[], &[]), (false, 1));
}

#[test]
fn walk_stops_after_ten_ancestors() {
    let parents: Vec<(u32, u32)> = (0..30).map(|i| (1000 + i, 1001 + i)).collect();
    assert_eq!(run_walk(1000, &parents, &[1010]).0, true);
    assert_eq!(run_walk(1000, &parents, &[1011]), (false, 20));
}
