use minazuki::knob::Snapshot;
use minazuki::state::{recover, scheduler_to_start, Engine, Start, State, RESTORE_GRACE_MS};

fn snapshot_of(pairs: &[(&str, &str)]) -> Snapshot {
    let mut s = Snapshot::new();
    for (p, v) in pairs {
        s.insert(p.to_string(), v.to_string());
    }
    s
}

#[test]
fn first_game_engages_then_others_are_added_or_known() {
    let mut e = Engine::new();
    assert!(!e.is_engaged());
    assert_eq!(e.on_game_start(100), Start::Engaged);
    e.engage(snapshot_of(&[("/sys/a", "powersave")]), "game.exe", None, true, true);
    assert!(e.is_engaged());
    assert_eq!(e.on_game_start(100), Start::Known);
    assert_eq!(e.on_game_start(200), Start::Added);
    assert_eq!(e.on_game_start(200), Start::Known);
    let mut pids = e.active_pids();
    pids.sort();
    assert_eq!(pids, vec![100, 200]);
}

#[test]
fn start_without_engage_asks_again() {
    let mut e = Engine::new();
    assert_eq!(e.on_game_start(7), Start::Engaged);
    assert_eq!(e.on_game_start(7), Start::Engaged);
}

#[test]
fn release_waits_for_the_grace_period() {
    let mut e = Engine::new();
    e.on_game_start(42);
    e.engage(snapshot_of(&[("/sys/gov", "schedutil")]), "cs2", Some("scx_lavd"), true, true);
    assert!(e.on_exit(42, 1000));
    assert!(e.tick(1000).is_none());
    assert!(e.tick(1000 + RESTORE_GRACE_MS - 1).is_none());
    let rel = e.tick(1000 + RESTORE_GRACE_MS).expect("release is due");
    assert!(rel.stop_scheduler);
    let snap = rel.snapshot.expect("snapshot");
    assert_eq!(snap.len(), 1);
    assert_eq!(snap.entries()[0], ("/sys/gov".to_string(), "schedutil".to_string()));
    assert!(!e.is_engaged());
    assert!(e.tick(1_000_000).is_none());
}

#[test]
fn new_game_cancels_pending_release() {
    let mut e = Engine::new();
    e.on_game_start(1);
    e.engage(Snapshot::new(), "dota2", None, true, true);
    assert!(e.on_exit(1, 0));
    assert_eq!(e.on_game_start(2), Start::Added);
    assert!(e.tick(RESTORE_GRACE_MS * 10).is_none());
    assert!(e.is_engaged());
}

#[test]
fn exit_of_unknown_pid_changes_nothing() {
    let mut e = Engine::new();
    e.on_game_start(5);
    e.engage(Snapshot::new(), "x", None, true, true);
    assert!(!e.on_exit(6, 0));
    assert!(e.on_exit(5, 0));
    // already armed: a second exit does not arm again
    assert!(!e.on_exit(5, 0));
}

#[test]
fn prune_dead_arms_only_when_a_known_game_died() {
    let mut e = Engine::new();
    e.on_game_start(10);
    e.on_game_start(11);
    e.engage(Snapshot::new(), "factorio", None, true, true);
    assert!(!e.prune_dead(&vec![99], 0));
    assert!(!e.prune_dead(&vec![10], 0));
    assert!(e.prune_dead(&vec![11, 12], 50));
    assert!(e.tick(50 + RESTORE_GRACE_MS).is_some());
}

#[test]
fn shutdown_releases_once() {
    let mut e = Engine::new();
    e.on_game_start(3);
    e.engage(snapshot_of(&[("/p", "1")]), "g", Some("scx_bpfland"), true, true);
    let first = e.shutdown();
    assert!(first.stop_scheduler);
    assert_eq!(first.snapshot.map(|s| s.len()), Some(1));
    assert!(e.active_pids().is_empty());
    let second = e.shutdown();
    assert!(!second.stop_scheduler);
    assert!(second.snapshot.is_none());
}

#[test]
fn scheduler_not_started_is_not_stopped() {
    let mut e = Engine::new();
    e.on_game_start(3);
    e.engage(Snapshot::new(), "g", None, true, true);
    assert!(!e.shutdown().stop_scheduler);
}

#[test]
fn persisted_record_recovers_the_same_release() {
    let mut e = Engine::new();
    e.on_game_start(9);
    e.engage(snapshot_of(&[("/a", "x"), ("/b", "y")]), "starrail.exe", Some("scx_rusty"), true, true);
    let st = e.persist();
    assert_eq!(st.game.as_deref(), Some("starrail.exe"));
    assert_eq!(st.scheduler.as_deref(), Some("scx_rusty"));
    assert_eq!(st.snapshot.len(), 2);
    let rel = recover(Some(st)).expect("release");
    assert!(rel.stop_scheduler);
    assert_eq!(rel.snapshot.map(|s| s.len()), Some(2));
}

#[test]
fn idle_engine_persists_an_empty_record() {
    let e = Engine::new();
    let st = e.persist();
    assert!(st.snapshot.is_empty());
    assert!(st.game.is_none());
    assert!(st.scheduler.is_none());
}

#[test]
fn recover_without_record_does_nothing() {
    assert!(recover(None).is_none());
    let st = State { snapshot: Snapshot::new(), game: None, scheduler: None };
    let rel = recover(Some(st)).expect("release");
    assert!(!rel.stop_scheduler);
}

#[test]
fn snapshot_insert_overwrites_a_path() {
    let mut s = Snapshot::new();
    assert!(s.is_empty());
    s.insert("/x".into(), "a".into());
    s.insert("/y".into(), "b".into());
    s.insert("/x".into(), "c".into());
    assert_eq!(s.len(), 2);
    assert_eq!(
        s.entries().clone(),
        vec![("/x".to_string(), "c".to_string()), ("/y".to_string(), "b".to_string())]
    );
    let d = s.duplicate();
    assert_eq!(d.entries(), s.entries());
}

#[test]
fn scheduler_taken_only_when_idle_and_started() {
    for (idle, ok, managed) in [(true, true, true), (true, false, false), (false, true, false), (false, false, false)] {
        let mut e = Engine::new();
        e.on_game_start(1);
        e.engage(Snapshot::new(), "g", Some("scx_lavd"), idle, ok);
        assert_eq!(e.persist().scheduler.is_some(), managed);
        assert_eq!(e.shutdown().stop_scheduler, managed);
    }
    let mut e = Engine::new();
    e.on_game_start(1);
    e.engage(Snapshot::new(), "g", None, true, true);
    assert!(!e.shutdown().stop_scheduler);
    assert_eq!(scheduler_to_start(Some("x"), true), Some("x"));
    assert_eq!(scheduler_to_start(Some("x"), false), None);
    assert_eq!(scheduler_to_start(None, true), None);
}

#[test]
fn new_engine_does_nothing() {
    let mut e = Engine::new();
    assert!(!e.is_engaged());
    assert!(e.tick(0).is_none());
    assert!(!e.on_exit(1, 0));
    assert!(!e.prune_dead(&vec![1, 2], 0));
    assert!(e.tick(RESTORE_GRACE_MS * 10).is_none());
    assert_eq!(e.on_game_start(1), Start::Engaged);
}
