use crate::knob::Snapshot;
use std::collections::HashSet;
use vstd::prelude::*;
use vstd::std_specs::hash::*;

verus! {

broadcast use group_hash_axioms;

/// How long the settings stay engaged after the last game exits, in milliseconds.
pub const RESTORE_GRACE_MS: u64 = 5000;

/// What a game start meant for the engine.
#[derive(Clone, Copy, Debug, PartialEq, Eq, Structural)]
pub enum Start {
    /// Nothing was engaged: the settings are to be engaged now.
    Engaged,
    /// Already engaged; this process is a further game.
    Added,
    /// Already engaged, and this process was already known.
    Known,
}

/// The record that survives a crash: what to restore, and what the engine had started.
pub struct State {
    pub snapshot: Snapshot,
    pub game: Option<String>,
    pub scheduler: Option<String>,
}

/// What to undo when the settings are released: the values to write back, and whether
/// a scheduler that the engine started is to be stopped.
pub struct Release {
    pub snapshot: Option<Snapshot>,
    pub stop_scheduler: bool,
}

pub open spec fn opt_text(o: Option<String>) -> Option<Seq<char>> {
    match o {
        Some(s) => Some(s@),
        None => None,
    }
}

pub open spec fn opt_snapshot(o: Option<Snapshot>) -> Option<Map<Seq<char>, Seq<char>>> {
    match o {
        Some(s) => Some(s@),
        None => None,
    }
}

pub open spec fn opt_snapshot_wf(o: Option<Snapshot>) -> bool {
    match o {
        Some(s) => s.wf(),
        None => true,
    }
}

impl Release {
    pub open spec fn wf(&self) -> bool {
        opt_snapshot_wf(self.snapshot)
    }

    /// The values to write back, and whether to stop the scheduler.
    pub open spec fn view(&self) -> (Option<Map<Seq<char>, Seq<char>>>, bool) {
        (opt_snapshot(self.snapshot), self.stop_scheduler)
    }
}

impl State {
    pub open spec fn wf(&self) -> bool {
        self.snapshot.wf()
    }
}

impl Default for State {
    fn default() -> (s: State)
        ensures
            s.wf(),
            s.snapshot@ == Map::<Seq<char>, Seq<char>>::empty(),
            s.game is None,
            s.scheduler is None,
    {
        State { snapshot: Snapshot::new(), game: None, scheduler: None }
    }
}

/// The scheduler that an engagement starts: the requested one, when sched_ext was idle
/// and the start succeeded.
pub open spec fn started_scheduler(requested: Option<Seq<char>>, idle: bool, start_ok: bool) -> Option<
    Seq<char>,
> {
    match requested {
        Some(s) => if idle && start_ok {
            Some(s)
        } else {
            None
        },
        None => None,
    }
}

/// The scheduler to try to start for an engagement: the requested one, and only when
/// sched_ext reported that no scheduler runs.
pub fn scheduler_to_start<'a>(requested: Option<&'a str>, idle: bool) -> (r: Option<&'a str>)
    ensures
        match r {
            Some(s) => idle && (requested matches Some(q) && s@ == q@),
            None => !idle || requested is None,
        },
{
    if idle {
        requested
    } else {
        None
    }
}

/// The abstract state of the engine.
pub struct EngineView {
    /// The game processes that are running.
    pub active: Set<u32>,
    /// The values to restore, while the settings are engaged.
    pub snapshot: Option<Map<Seq<char>, Seq<char>>>,
    /// The game that engaged the settings.
    pub game: Option<Seq<char>>,
    /// The scheduler that the engine started.
    pub scheduler: Option<Seq<char>>,
    /// Whether the engine started a scheduler that it must stop.
    pub scx_managed: bool,
    /// When the settings are to be released, once no game runs.
    pub pending_off: Option<u64>,
}

impl EngineView {
    pub open spec fn wf(self) -> bool {
        &&& self.active.finite()
        &&& self.scx_managed == self.scheduler.is_some()
        &&& self.scheduler.is_some() ==> self.snapshot.is_some()
        &&& self.game.is_some() == self.snapshot.is_some()
        &&& self.pending_off.is_some() ==> self.snapshot.is_some() && self.active.is_empty()
    }

    pub open spec fn engaged(self) -> bool {
        self.snapshot.is_some()
    }

    pub open spec fn idle() -> EngineView {
        EngineView {
            active: Set::empty(),
            snapshot: None,
            game: None,
            scheduler: None,
            scx_managed: false,
            pending_off: None,
        }
    }

    /// The engine's answer to a game start.
    pub open spec fn start_outcome(self, pid: u32) -> Start {
        if self.snapshot.is_none() {
            Start::Engaged
        } else if !self.active.contains(pid) {
            Start::Added
        } else {
            Start::Known
        }
    }

    /// A game start cancels a pending release and records the process.
    pub open spec fn after_start(self, pid: u32) -> EngineView {
        EngineView { active: self.active.insert(pid), pending_off: None, ..self }
    }

    /// The settings engaged with `snapshot` for `game`; `started` is the scheduler that
    /// was started, if any.
    pub open spec fn after_engage(
        self,
        snapshot: Map<Seq<char>, Seq<char>>,
        game: Seq<char>,
        started: Option<Seq<char>>,
    ) -> EngineView {
        EngineView {
            snapshot: Some(snapshot),
            game: Some(game),
            scheduler: started,
            scx_managed: started.is_some(),
            ..self
        }
    }

    /// Arms the release timer when no game runs any more, the settings are engaged and no
    /// release is pending yet; the `bool` says whether it was armed.
    pub open spec fn arm(self, now: u64) -> (EngineView, bool) {
        if self.active.is_empty() && self.snapshot.is_some() && self.pending_off.is_none() {
            (EngineView { pending_off: Some((now + RESTORE_GRACE_MS) as u64), ..self }, true)
        } else {
            (self, false)
        }
    }

    /// A process exit: a known game is dropped, and the timer armed if it was the last.
    pub open spec fn after_exit(self, pid: u32, now: u64) -> (EngineView, bool) {
        if self.active.contains(pid) {
            EngineView { active: self.active.remove(pid), ..self }.arm(now)
        } else {
            (self, false)
        }
    }

    /// Dead processes are dropped, and the timer armed if no game is left.
    pub open spec fn after_prune(self, dead: Set<u32>, now: u64) -> (EngineView, bool) {
        if self.active.intersect(dead).is_empty() {
            (self, false)
        } else {
            EngineView { active: self.active.difference(dead), ..self }.arm(now)
        }
    }

    /// The settings released: nothing engaged, nothing pending.
    pub open spec fn after_disengage(self) -> EngineView {
        EngineView {
            snapshot: None,
            game: None,
            scheduler: None,
            scx_managed: false,
            pending_off: None,
            ..self
        }
    }

    /// What a release undoes: the recorded values, and whether to stop the scheduler.
    pub open spec fn release(self) -> (Option<Map<Seq<char>, Seq<char>>>, bool) {
        (self.snapshot, self.scx_managed)
    }

    /// Whether the release timer has run out at `now` with no game running.
    pub open spec fn due(self, now: u64) -> bool {
        match self.pending_off {
            Some(deadline) => now >= deadline && self.active.is_empty(),
            None => false,
        }
    }
}

/// Decides when the performance settings are engaged and released, as games start and exit.
pub struct Engine {
    active: HashSet<u32>,
    snapshot: Option<Snapshot>,
    game: Option<String>,
    scheduler: Option<String>,
    scx_managed: bool,
    pending_off: Option<u64>,
}

impl View for Engine {
    type V = EngineView;

    closed spec fn view(&self) -> EngineView {
        EngineView {
            active: self.active@,
            snapshot: opt_snapshot(self.snapshot),
            game: opt_text(self.game),
            scheduler: opt_text(self.scheduler),
            scx_managed: self.scx_managed,
            pending_off: self.pending_off,
        }
    }
}

impl Engine {
    pub closed spec fn wf(&self) -> bool {
        &&& self@.wf()
        &&& opt_snapshot_wf(self.snapshot)
    }

    /// A new engine: nothing engaged, no game known.
    pub fn new() -> (e: Engine)
        ensures
            e.wf(),
            e@ == EngineView::idle(),
    {
        Engine {
            active: HashSet::new(),
            snapshot: None,
            game: None,
            scheduler: None,
            scx_managed: false,
            pending_off: None,
        }
    }

    /// Whether the settings are engaged.
    pub fn is_engaged(&self) -> (r: bool)
        ensures
            r == self@.engaged(),
    {
        self.snapshot.is_some()
    }

    /// The game processes that are known to run.
    pub fn active_pids(&self) -> (r: Vec<u32>)
        requires
            self.wf(),
        ensures
            r@.to_set() == self@.active,
            r@.no_duplicates(),
    {
        let mut r: Vec<u32> = Vec::new();
        for p in it: self.active.iter()
            invariant
                r@ == it.seq().take(it.index() as int).map_values(|x: &u32| *x),
                it.seq() == vstd::std_specs::iter::IteratorSpec::remaining(&spec_hash_keys_iter(&self.active)),
        {
            r.push(*p);
            proof {
                assert(it.seq().take(it.index() + 1).map_values(|x: &u32| *x) =~= it.seq().take(
                    it.index() as int,
                ).map_values(|x: &u32| *x).push(*p));
            }
        }
        proof {
            let keys = vstd::std_specs::iter::IteratorSpec::remaining(&spec_hash_keys_iter(&self.active));
            assert(keys.take(keys.len() as int) =~= keys);
            assert(r@ =~= keys.unref());
        }
        r
    }

    /// A game process started. Cancels a pending release and records the process. The
    /// answer is `Engaged` when nothing was engaged: the caller then engages the settings
    /// and reports them with `engage`.
    pub fn on_game_start(&mut self, pid: u32) -> (r: Start)
        requires
            old(self).wf(),
        ensures
            final(self).wf(),
            r == old(self)@.start_outcome(pid),
            final(self)@ == old(self)@.after_start(pid),
    {
        self.pending_off = None;
        let newly = self.active.insert(pid);
        if self.snapshot.is_none() {
            Start::Engaged
        } else if newly {
            Start::Added
        } else {
            Start::Known
        }
    }

    /// Records the settings just engaged for `game`: `snapshot` holds the values they
    /// replaced. `requested` is the scheduler the game asked for, `idle` whether sched_ext
    /// reported that no scheduler runs, and `start_ok` whether starting the requested
    /// scheduler succeeded. The engine takes charge of the scheduler only when one was
    /// requested, sched_ext was idle and the start succeeded.
    pub fn engage(
        &mut self,
        snapshot: Snapshot,
        game: &str,
        requested: Option<&str>,
        idle: bool,
        start_ok: bool,
    )
        requires
            old(self).wf(),
            !old(self)@.engaged(),
            snapshot.wf(),
        ensures
            final(self).wf(),
            final(self)@ == old(self)@.after_engage(
                snapshot@,
                game@,
                started_scheduler(
                    match requested {
                        Some(s) => Some(s@),
                        None => None,
                    },
                    idle,
                    start_ok,
                ),
            ),
    {
        self.snapshot = Some(snapshot);
        self.game = Some(game.to_owned());
        match requested {
            Some(s) => if idle && start_ok {
                self.scheduler = Some(s.to_owned());
                self.scx_managed = true;
            } else {
                self.scheduler = None;
                self.scx_managed = false;
            },
            None => {
                self.scheduler = None;
                self.scx_managed = false;
            },
        }
    }

    /// The record to keep on disk while engaged: the snapshot (empty when nothing is
    /// engaged), the game, and the scheduler that was started.
    pub fn persist(&self) -> (st: State)
        requires
            self.wf(),
        ensures
            st.wf(),
            st.snapshot@ == match self@.snapshot {
                Some(m) => m,
                None => Map::empty(),
            },
            opt_text(st.game) == self@.game,
            opt_text(st.scheduler) == self@.scheduler,
    {
        let snapshot = match &self.snapshot {
            Some(s) => s.duplicate(),
            None => Snapshot::new(),
        };
        let game = match &self.game {
            Some(g) => Some(g.clone()),
            None => None,
        };
        let scheduler = match &self.scheduler {
            Some(g) => Some(g.clone()),
            None => None,
        };
        State { snapshot, game, scheduler }
    }

    fn maybe_arm(&mut self, now: u64) -> (armed: bool)
        requires
            old(self).wf() || (old(self)@.active.finite() && old(self)@.scx_managed == old(
                self,
            )@.scheduler.is_some() && (old(self)@.scheduler.is_some()
                ==> old(self)@.snapshot.is_some()) && old(self)@.game.is_some() == old(
                self,
            )@.snapshot.is_some() && opt_snapshot_wf(old(self).snapshot) && (old(
                self,
            )@.pending_off.is_some() ==> old(self)@.snapshot.is_some())),
            now <= u64::MAX - RESTORE_GRACE_MS,
            old(self)@.pending_off.is_some() ==> old(self)@.active.is_empty(),
        ensures
            final(self).wf(),
            (final(self)@, armed) == old(self)@.arm(now),
    {
        if self.active.is_empty() && self.snapshot.is_some() && self.pending_off.is_none() {
            self.pending_off = Some(now + RESTORE_GRACE_MS);
            true
        } else {
            false
        }
    }

    /// A process exited. A known game is dropped; when it was the last one and the
    /// settings are engaged, the release is armed to happen `RESTORE_GRACE_MS` after `now`,
    /// and the answer is `true`.
    pub fn on_exit(&mut self, pid: u32, now: u64) -> (armed: bool)
        requires
            old(self).wf(),
            now <= u64::MAX - RESTORE_GRACE_MS,
        ensures
            final(self).wf(),
            (final(self)@, armed) == old(self)@.after_exit(pid, now),
    {
        if self.active.remove(&pid) {
            self.maybe_arm(now)
        } else {
            assert(self.active@ =~= old(self).active@);
            false
        }
    }

    /// Drops the known games that are listed in `dead`. When none of them was known,
    /// nothing changes and the answer is `false`; otherwise the release is armed as
    /// `on_exit` arms it.
    pub fn prune_dead(&mut self, dead: &Vec<u32>, now: u64) -> (armed: bool)
        requires
            old(self).wf(),
            now <= u64::MAX - RESTORE_GRACE_MS,
        ensures
            final(self).wf(),
            (final(self)@, armed) == old(self)@.after_prune(dead@.to_set(), now),
    {
        let ghost start = self.active@;
        let mut any = false;
        let n = dead.len();
        let mut i: usize = 0;
        while i < n
            invariant
                i <= n,
                n == dead@.len(),
                self.active@ == start.difference(dead@.take(i as int).to_set()),
                any == !start.intersect(dead@.take(i as int).to_set()).is_empty(),
                start == old(self)@.active,
                self.snapshot == old(self).snapshot,
                self.game == old(self).game,
                self.scheduler == old(self).scheduler,
                self.scx_managed == old(self).scx_managed,
                self.pending_off == old(self).pending_off,
            decreases n - i,
        {
            let pid = dead[i];
            let removed = self.active.remove(&pid);
            proof {
                let before = dead@.take(i as int).to_set();
                let after = dead@.take(i + 1).to_set();
                assert(dead@.take(i + 1) =~= dead@.take(i as int).push(pid));
                dead@.take(i as int).lemma_push_to_set_commute(pid);
                assert(after =~= before.insert(pid));
                assert(self.active@ =~= start.difference(after));
                if removed {
                    assert(start.intersect(after).contains(pid));
                } else {
                    assert(start.intersect(after) =~= start.intersect(before));
                }
            }
            any = any || removed;
            i = i + 1;
        }
        proof {
            assert(dead@.take(n as int) =~= dead@);
        }
        if !any {
            proof {
                let d = dead@.to_set();
                assert forall|x: u32| start.contains(x) implies !d.contains(x) by {
                    if d.contains(x) {
                        assert(start.intersect(d).contains(x));
                    }
                }
                assert(self.active@ =~= start);
            }
            return false;
        }
        self.maybe_arm(now)
    }

    fn disengage(&mut self) -> (r: Release)
        requires
            old(self).wf(),
        ensures
            final(self).wf(),
            r.wf(),
            r@ == old(self)@.release(),
            final(self)@ == old(self)@.after_disengage(),
    {
        let snapshot = self.snapshot.take();
        let stop_scheduler = self.scx_managed;
        self.scx_managed = false;
        self.game = None;
        self.scheduler = None;
        self.pending_off = None;
        Release { snapshot, stop_scheduler }
    }

    /// Releases the settings when the release timer has run out at `now` and no game
    /// runs; the answer says what to undo. Otherwise nothing changes.
    pub fn tick(&mut self, now: u64) -> (r: Option<Release>)
        requires
            old(self).wf(),
        ensures
            final(self).wf(),
            old(self)@.due(now) ==> (r matches Some(rel) && rel.wf() && rel@ == old(
                self,
            )@.release() && final(self)@ == old(self)@.after_disengage()),
            !old(self)@.due(now) ==> r is None && final(self)@ == old(self)@,
    {
        match self.pending_off {
            Some(deadline) => {
                if now >= deadline && self.active.is_empty() {
                    Some(self.disengage())
                } else {
                    None
                }
            },
            None => None,
        }
    }

    /// Releases everything and forgets all games; the answer says what to undo.
    pub fn shutdown(&mut self) -> (r: Release)
        requires
            old(self).wf(),
        ensures
            final(self).wf(),
            r.wf(),
            r@ == old(self)@.release(),
            final(self)@ == EngineView::idle(),
    {
        let r = self.disengage();
        self.active.clear();
        r
    }
}

/// While the settings are engaged, no game start asks to engage them again; a start of a
/// process that was already known is `Known`, and of a new one `Added`.
pub proof fn lemma_engages_once(v: EngineView, pid: u32)
    requires
        v.wf(),
        v.engaged(),
    ensures
        v.start_outcome(pid) != Start::Engaged,
        v.active.contains(pid) ==> v.start_outcome(pid) == Start::Known,
        !v.active.contains(pid) ==> v.start_outcome(pid) == Start::Added,
        v.after_start(pid).engaged(),
        v.after_start(pid).start_outcome(pid) == Start::Known,
{
}

/// A game start cancels a pending release: right after it, the release is not due at any
/// time, whatever was pending before.
pub proof fn lemma_start_cancels_release(v: EngineView, pid: u32, t: u64)
    requires
        v.wf(),
    ensures
        v.after_start(pid).wf(),
        !v.after_start(pid).due(t),
{
}

/// The settings stay engaged for the grace period: once the last game has exited at
/// `now`, the release is not due before `now + RESTORE_GRACE_MS`, and is due from then on
/// as long as no game starts.
pub proof fn lemma_grace_period(v: EngineView, pid: u32, now: u64, t: u64)
    requires
        v.wf(),
        v.engaged(),
        v.pending_off is None,
        v.active == Set::<u32>::empty().insert(pid),
        now <= u64::MAX - RESTORE_GRACE_MS,
    ensures
        v.after_exit(pid, now).1,
        v.after_exit(pid, now).0.wf(),
        v.after_exit(pid, now).0.due(t) <==> t >= now + RESTORE_GRACE_MS,
        v.after_exit(pid, now).0.release() == v.release(),
{
    assert(v.active.remove(pid) =~= Set::empty());
}

/// A whole session: from an idle engine, a game starts, the settings are engaged with
/// `snapshot` while the game asks for the scheduler `requested` (if any), sched_ext is
/// `idle` or not and the start succeeds (`start_ok`) or not; the game exits at `now`. Once
/// the grace period has passed, the release writes back exactly `snapshot`, stops a
/// scheduler only when one was requested, sched_ext was idle and the start succeeded, and
/// leaves nothing engaged.
pub proof fn lemma_session_releases_what_was_engaged(
    pid: u32,
    snapshot: Map<Seq<char>, Seq<char>>,
    game: Seq<char>,
    requested: Option<Seq<char>>,
    idle: bool,
    start_ok: bool,
    now: u64,
    t: u64,
)
    requires
        now <= u64::MAX - RESTORE_GRACE_MS,
        t >= now + RESTORE_GRACE_MS,
    ensures
        ({
            let v0 = EngineView::idle();
            let v1 = v0.after_start(pid);
            let v2 = v1.after_engage(snapshot, game, started_scheduler(requested, idle, start_ok));
            let (v3, armed) = v2.after_exit(pid, now);
            &&& v0.start_outcome(pid) == Start::Engaged
            &&& v2.wf()
            &&& armed
            &&& v3.due(t)
            &&& v3.release() == (Some(snapshot), requested is Some && idle && start_ok)
            &&& v3.after_disengage().wf()
            &&& !v3.after_disengage().engaged()
            &&& v3.after_disengage().release() == (None::<Map<Seq<char>, Seq<char>>>, false)
        }),
{
    let v1 = EngineView::idle().after_start(pid);
    assert(v1.active.remove(pid) =~= Set::empty());
}

/// A shut-down engine has nothing left to release: a second shutdown writes nothing back
/// and stops nothing.
pub proof fn lemma_shutdown_is_final()
    ensures
        EngineView::idle().wf(),
        EngineView::idle().release() == (None::<Map<Seq<char>, Seq<char>>>, false),
        !EngineView::idle().due(0),
{
}

/// The record kept on disk says what a release would undo: recovering from the record of
/// an engaged engine writes back its snapshot and stops the scheduler exactly when the
/// engine started one.
pub proof fn lemma_record_matches_release(v: EngineView)
    requires
        v.wf(),
        v.engaged(),
    ensures
        (Some(v.snapshot.unwrap()), v.scheduler is Some) == v.release(),
{
}

/// A new engine has nothing to release and nothing to arm: no tick is due, no exit and no
/// pruning arms the timer or changes it, and the first game start asks to engage.
pub proof fn lemma_new_engine_is_idle(pid: u32, dead: Set<u32>, now: u64, t: u64)
    ensures
        !EngineView::idle().due(t),
        EngineView::idle().after_exit(pid, now) == (EngineView::idle(), false),
        EngineView::idle().after_prune(dead, now) == (EngineView::idle(), false),
        EngineView::idle().start_outcome(pid) == Start::Engaged,
{
    assert(Set::<u32>::empty().intersect(dead) =~= Set::empty());
}

/// An exit of a running game always drops it, however many other games still run, and
/// leaves what is engaged as it was. When it was the last game of an engaged engine with
/// no release pending, the exit answers `true` and the release falls due exactly
/// `RESTORE_GRACE_MS` after `now`; while other games run, nothing is armed.
pub proof fn lemma_exit_drops_the_game(v: EngineView, pid: u32, now: u64)
    requires
        v.active.contains(pid),
        now <= u64::MAX - RESTORE_GRACE_MS,
    ensures
        v.after_exit(pid, now).0.active == v.active.remove(pid),
        v.after_exit(pid, now).0.snapshot == v.snapshot,
        v.after_exit(pid, now).0.game == v.game,
        v.after_exit(pid, now).0.scheduler == v.scheduler,
        v.active.remove(pid).is_empty() && v.engaged() && v.pending_off is None ==> {
            &&& v.after_exit(pid, now).1
            &&& v.after_exit(pid, now).0.pending_off == Some((now + RESTORE_GRACE_MS) as u64)
            &&& v.after_exit(pid, now).0.due((now + RESTORE_GRACE_MS) as u64)
            &&& forall|t: u64| t < now + RESTORE_GRACE_MS ==> !v.after_exit(pid, now).0.due(t)
        },
        !v.active.remove(pid).is_empty() ==> !v.after_exit(pid, now).1
            && v.after_exit(pid, now).0.pending_off == v.pending_off,
{
}

/// Pruning drops exactly the dead games, and keeps what is engaged. It arms the release,
/// due `RESTORE_GRACE_MS` after `now`, exactly when a known game died, none is left, the
/// settings are engaged and no release is pending; otherwise the deadline stays as it was.
pub proof fn lemma_prune_drops_the_dead(v: EngineView, dead: Set<u32>, now: u64)
    requires
        now <= u64::MAX - RESTORE_GRACE_MS,
    ensures
        v.after_prune(dead, now).0.active == v.active.difference(dead),
        v.after_prune(dead, now).0.snapshot == v.snapshot,
        v.after_prune(dead, now).0.game == v.game,
        v.after_prune(dead, now).0.scheduler == v.scheduler,
        v.after_prune(dead, now).1 <==> (exists|p: u32| v.active.contains(p) && dead.contains(p))
            && v.active.difference(dead).is_empty() && v.engaged() && v.pending_off is None,
        v.after_prune(dead, now).1 ==> v.after_prune(dead, now).0.pending_off == Some(
            (now + RESTORE_GRACE_MS) as u64,
        ),
        !v.after_prune(dead, now).1 ==> v.after_prune(dead, now).0.pending_off == v.pending_off,
{
    if v.active.intersect(dead).is_empty() {
        assert(v.active.difference(dead) =~= v.active) by {
            assert forall|p: u32| v.active.contains(p) implies !dead.contains(p) by {
                if dead.contains(p) {
                    assert(v.active.intersect(dead).contains(p));
                }
            }
        }
        if exists|p: u32| v.active.contains(p) && dead.contains(p) {
            let p = choose|p: u32| v.active.contains(p) && dead.contains(p);
            assert(v.active.intersect(dead).contains(p));
        }
    } else {
        let p = choose|p: u32| v.active.intersect(dead).contains(p);
        assert(v.active.contains(p) && dead.contains(p));
    }
}

/// A game start records the process and cancels a pending release, and keeps what is
/// engaged. Its answer asks to engage exactly when nothing is engaged; otherwise it says
/// whether the process was already known.
pub proof fn lemma_start_records_the_game(v: EngineView, pid: u32)
    ensures
        v.after_start(pid).active == v.active.insert(pid),
        v.after_start(pid).pending_off is None,
        v.after_start(pid).snapshot == v.snapshot,
        v.after_start(pid).game == v.game,
        v.after_start(pid).scheduler == v.scheduler,
        (v.start_outcome(pid) == Start::Engaged) <==> !v.engaged(),
        (v.start_outcome(pid) == Start::Added) <==> v.engaged() && !v.active.contains(pid),
        (v.start_outcome(pid) == Start::Known) <==> v.engaged() && v.active.contains(pid),
{
}

/// Two games in turn: after starts of `p` and `q` and an engagement, the exit of `p`
/// arms nothing, and the exit of `q` at `now` arms the release, due from
/// `now + RESTORE_GRACE_MS` on and not before.
pub proof fn lemma_last_of_two_games_arms(
    p: u32,
    q: u32,
    snapshot: Map<Seq<char>, Seq<char>>,
    game: Seq<char>,
    started: Option<Seq<char>>,
    t0: u64,
    now: u64,
)
    requires
        p != q,
        t0 <= u64::MAX - RESTORE_GRACE_MS,
        now <= u64::MAX - RESTORE_GRACE_MS,
    ensures
        ({
            let v = EngineView::idle().after_start(p).after_start(q).after_engage(
                snapshot,
                game,
                started,
            );
            let (w, first) = v.after_exit(p, t0);
            let (x, second) = w.after_exit(q, now);
            &&& !first
            &&& w.active == set![q]
            &&& second
            &&& x.active.is_empty()
            &&& x.due((now + RESTORE_GRACE_MS) as u64)
            &&& forall|t: u64| t < now + RESTORE_GRACE_MS ==> !x.due(t)
        }),
{
    let v = EngineView::idle().after_start(p).after_start(q).after_engage(snapshot, game, started);
    assert(v.active =~= set![p, q]);
    assert(v.active.remove(p) =~= set![q]);
    lemma_exit_drops_the_game(v, p, t0);
    let w = v.after_exit(p, t0).0;
    assert(w.active.remove(q) =~= Set::<u32>::empty());
    lemma_exit_drops_the_game(w, q, now);
}

/// One call on the engine, as the release timer sees it.
pub enum EngineOp {
    /// `on_game_start(pid)`.
    Start(u32),
    /// `engage` with a snapshot, a game and the scheduler it started.
    Engage(Map<Seq<char>, Seq<char>>, Seq<char>, Option<Seq<char>>),
    /// `on_exit(pid, now)`.
    Exit(u32, u64),
    /// `prune_dead(dead, now)`.
    Prune(Set<u32>, u64),
    /// `tick(now)`.
    Tick(u64),
    /// `shutdown()`.
    Shutdown,
}

impl EngineOp {
    /// The time the call is made at, for the calls that can arm the timer.
    pub open spec fn arm_time(self) -> Option<u64> {
        match self {
            EngineOp::Exit(_, t) => Some(t),
            EngineOp::Prune(_, t) => Some(t),
            _ => None,
        }
    }

    /// Whether the call's time is within what the engine accepts.
    pub open spec fn time_ok(self) -> bool {
        match self.arm_time() {
            Some(t) => t <= u64::MAX - RESTORE_GRACE_MS,
            None => true,
        }
    }
}

impl EngineView {
    /// The engine after one call, as the exec functions' contracts give it; `engage` on an
    /// engaged engine, which it does not accept, changes nothing here.
    pub open spec fn after_op(self, op: EngineOp) -> EngineView {
        match op {
            EngineOp::Start(p) => self.after_start(p),
            EngineOp::Engage(snap, game, started) => if self.engaged() {
                self
            } else {
                self.after_engage(snap, game, started)
            },
            EngineOp::Exit(p, now) => self.after_exit(p, now).0,
            EngineOp::Prune(dead, now) => self.after_prune(dead, now).0,
            EngineOp::Tick(t) => if self.due(t) {
                self.after_disengage()
            } else {
                self
            },
            EngineOp::Shutdown => EngineView::idle(),
        }
    }

    /// The engine after a sequence of calls.
    pub open spec fn after_ops(self, ops: Seq<EngineOp>) -> EngineView
        decreases ops.len(),
    {
        if ops.len() == 0 {
            self
        } else {
            self.after_ops(ops.drop_last()).after_op(ops.last())
        }
    }
}

/// Whether call `j` of `ops` armed the timer for `deadline` and no game start came after
/// it.
pub open spec fn armed_by(ops: Seq<EngineOp>, j: int, deadline: u64) -> bool {
    &&& 0 <= j < ops.len()
    &&& ops[j].arm_time() matches Some(t0) && deadline == t0 + RESTORE_GRACE_MS
    &&& forall|k: int| j < k < ops.len() ==> !(#[trigger] ops[k] is Start)
}

/// Whether the deadline `d` was already pending before `ops`, and none of them is a game
/// start.
pub open spec fn kept_from_start(v: EngineView, ops: Seq<EngineOp>, d: u64) -> bool {
    &&& v.pending_off == Some(d)
    &&& forall|k: int| 0 <= k < ops.len() ==> !(#[trigger] ops[k] is Start)
}

proof fn lemma_pending_armed(v: EngineView, ops: Seq<EngineOp>)
    requires
        forall|k: int| 0 <= k < ops.len() ==> (#[trigger] ops[k]).time_ok(),
    ensures
        v.after_ops(ops).pending_off matches Some(d) ==> (exists|j: int| armed_by(ops, j, d))
            || kept_from_start(v, ops, d),
    decreases ops.len(),
{
    if ops.len() > 0 {
        let pre = ops.drop_last();
        assert forall|k: int| 0 <= k < pre.len() implies (#[trigger] pre[k]).time_ok() by {
            assert(pre[k] == ops[k]);
        }
        lemma_pending_armed(v, pre);
        let w = v.after_ops(pre);
        let last = ops.last();
        assert(last.time_ok());
        let w2 = w.after_op(last);
        if w2.pending_off is Some {
            let d = w2.pending_off.unwrap();
            if w.pending_off == Some(d) && !(last is Start) {
                if exists|j: int| armed_by(pre, j, d) {
                    let j = choose|j: int| armed_by(pre, j, d);
                    assert(armed_by(ops, j, d)) by {
                        assert forall|k: int| j < k < ops.len() implies !(
                        #[trigger] ops[k] is Start) by {
                            if k < pre.len() {
                                assert(ops[k] == pre[k]);
                            }
                        }
                    }
                } else {
                    assert(kept_from_start(v, ops, d)) by {
                        assert forall|k: int| 0 <= k < ops.len() implies !(
                        #[trigger] ops[k] is Start) by {
                            if k < pre.len() {
                                assert(ops[k] == pre[k]);
                            }
                        }
                    }
                }
            } else {
                assert(armed_by(ops, ops.len() - 1, d));
            }
        }
    }
}

/// The release timer over any sequence of calls: a tick is due at `t` only if no game
/// runs and the deadline has passed, where the deadline was set by some exit or pruning at
/// a time `t0`, as `t0 + RESTORE_GRACE_MS`, with no game start after that call, or was
/// already pending before the calls, none of which started a game.
pub proof fn lemma_release_needs_grace(v: EngineView, ops: Seq<EngineOp>, t: u64)
    requires
        forall|k: int| 0 <= k < ops.len() ==> (#[trigger] ops[k]).time_ok(),
        v.after_ops(ops).due(t),
    ensures
        v.after_ops(ops).active.is_empty(),
        v.after_ops(ops).pending_off.unwrap() <= t,
        (exists|j: int|
            #![trigger ops[j]]
            armed_by(ops, j, v.after_ops(ops).pending_off.unwrap())) || kept_from_start(
            v,
            ops,
            v.after_ops(ops).pending_off.unwrap(),
        ),
{
    lemma_pending_armed(v, ops);
    let d = v.after_ops(ops).pending_off.unwrap();
    if exists|j: int| armed_by(ops, j, d) {
        let j = choose|j: int| armed_by(ops, j, d);
        assert(armed_by(ops, j, d));
    }
}

/// What a restart does with a record left behind by a run that did not finish: the
/// recorded values are written back, and the scheduler is stopped when the record names
/// one. With no record there is nothing to do.
pub fn recover(record: Option<State>) -> (r: Option<Release>)
    requires
        record matches Some(st) ==> st.wf(),
    ensures
        record is None ==> r is None,
        record matches Some(st) ==> (r matches Some(rel) && rel.wf() && rel@ == (
            Some(st.snapshot@),
            st.scheduler is Some,
        )),
{
    match record {
        Some(st) => {
            let stop_scheduler = st.scheduler.is_some();
            Some(Release { snapshot: Some(st.snapshot), stop_scheduler })
        },
        None => None,
    }
}

} // verus!
