use crate::config::{copy_opt, copy_pairs, copy_texts, pair_texts, texts, Config};
use crate::proc::{is_exe, is_exe_spec};
use crate::state::opt_text;
use crate::text::{contains, list_contains, lossy, lowercase, seq_contains, to_lower, utf8_lossy};
use vstd::prelude::*;
use vstd::utf8::*;

verus! {

/// A game that was found running.
pub struct Game {
    pub name: String,
    pub scheduler: Option<String>,
}

/// The abstract contents of a matcher.
pub struct MatcherView {
    pub game_names: Seq<Seq<char>>,
    pub system_exes: Seq<Seq<char>>,
    pub default_scheduler: Option<Seq<char>>,
    pub scheduler_rules: Seq<(Seq<char>, Seq<char>)>,
}

/// Tells games from other processes, and which scheduler a game gets.
pub struct Matcher {
    game_names: Vec<String>,
    system_exes: Vec<String>,
    default_scheduler: Option<String>,
    scheduler_rules: Vec<(String, String)>,
}

impl View for Matcher {
    type V = MatcherView;

    closed spec fn view(&self) -> MatcherView {
        MatcherView {
            game_names: texts(self.game_names@),
            system_exes: texts(self.system_exes@),
            default_scheduler: opt_text(self.default_scheduler),
            scheduler_rules: pair_texts(self.scheduler_rules@),
        }
    }
}

/// The scheduler of the first rule whose text occurs in `path`.
pub open spec fn first_rule(rules: Seq<(Seq<char>, Seq<char>)>, path: Seq<char>) -> Option<
    Seq<char>,
>
    decreases rules.len(),
{
    if rules.len() == 0 {
        None
    } else {
        match first_rule(rules.drop_last(), path) {
            Some(s) => Some(s),
            None => if seq_contains(path, rules.last().0) {
                Some(rules.last().1)
            } else {
                None
            },
        }
    }
}

impl MatcherView {
    /// Whether a process named `name` (lower-cased: `lower`) is a game: it is listed as
    /// one, or it is a Windows executable that is not a system process and runs under
    /// Proton (`proton_parent`).
    pub open spec fn is_game(self, name: Seq<char>, lower: Seq<char>, proton_parent: bool) -> bool {
        ||| self.game_names.contains(lower)
        ||| (is_exe_spec(encode_utf8(name)) && !self.system_exes.contains(lower) && proton_parent)
    }

    /// Whether the answer for `name` depends on its Proton ancestry.
    pub open spec fn needs_proton(self, name: Seq<char>, lower: Seq<char>) -> bool {
        &&& !self.game_names.contains(lower)
        &&& is_exe_spec(encode_utf8(name))
        &&& !self.system_exes.contains(lower)
    }

    /// The scheduler for a game whose lower-cased command line is `path`: that of the
    /// first rule whose text occurs in it, else the default one.
    pub open spec fn scheduler_for_path(self, path: Seq<char>) -> Option<Seq<char>> {
        match first_rule(self.scheduler_rules, path) {
            Some(s) => Some(s),
            None => self.default_scheduler,
        }
    }
}

fn texts_contain(list: &Vec<String>, s: &String) -> (r: bool)
    ensures
        r == texts(list@).contains(s@),
{
    let r = list_contains(list, s);
    proof {
        if r {
            let i = choose|i: int| 0 <= i < list@.len() && #[trigger] list@[i]@ == s@;
            assert(texts(list@)[i] == s@);
        } else {
            if texts(list@).contains(s@) {
                let i = choose|i: int| 0 <= i < texts(list@).len() && texts(list@)[i] == s@;
                assert(list@[i]@ == s@);
            }
        }
    }
    r
}

impl Matcher {
    /// A matcher for the games and rules of `config`.
    pub fn new(config: &Config) -> (m: Matcher)
        ensures
            m@.game_names == texts(config.game_names@),
            m@.system_exes == texts(config.system_exes@),
            m@.default_scheduler == opt_text(config.default_scheduler),
            m@.scheduler_rules == pair_texts(config.scheduler_rules@),
    {
        let d = copy_opt(&config.default_scheduler);
        proof {
            assert(opt_text(d) == opt_text(config.default_scheduler));
        }
        Matcher {
            game_names: copy_texts(&config.game_names),
            system_exes: copy_texts(&config.system_exes),
            default_scheduler: d,
            scheduler_rules: copy_pairs(&config.scheduler_rules),
        }
    }

    /// Whether the process named `name`, lower-cased `lower`, is a game, given whether it
    /// runs under Proton.
    pub fn is_game_named(&self, name: &str, lower: &String, proton_parent: bool) -> (r: bool)
        ensures
            r == self@.is_game(name@, lower@, proton_parent),
    {
        if texts_contain(&self.game_names, lower) {
            return true;
        }
        is_exe(name.as_bytes()) && !texts_contain(&self.system_exes, lower) && proton_parent
    }

    /// Whether telling whether `name` is a game needs its Proton ancestry: only then does
    /// the caller have to walk its parents.
    pub fn needs_proton_check(&self, name: &str) -> (r: bool)
        ensures
            r == self@.needs_proton(name@, lowercase(name@)),
    {
        let lower = to_lower(name);
        !texts_contain(&self.game_names, &lower) && is_exe(name.as_bytes()) && !texts_contain(
            &self.system_exes,
            &lower,
        )
    }

    /// The scheduler for a game whose lower-cased command line is `path`.
    pub fn scheduler_for_path(&self, path: &str) -> (r: Option<String>)
        ensures
            opt_text(r) == self@.scheduler_for_path(path@),
    {
        let n = self.scheduler_rules.len();
        let mut i: usize = 0;
        while i < n
            invariant
                i <= n,
                n == self.scheduler_rules@.len(),
                first_rule(pair_texts(self.scheduler_rules@.take(i as int)), path@) is None,
            decreases n - i,
        {
            let ghost pre = pair_texts(self.scheduler_rules@.take(i as int));
            let ghost next = pair_texts(self.scheduler_rules@.take(i + 1));
            proof {
                assert(next.drop_last() =~= pre);
                assert(next.last() == (self.scheduler_rules@[i as int].0@, self.scheduler_rules@[i as int].1@));
            }
            if contains(path, self.scheduler_rules[i].0.as_str()) {
                let s = self.scheduler_rules[i].1.clone();
                proof {
                    lemma_first_rule_prefix(
                        pair_texts(self.scheduler_rules@),
                        path@,
                        i + 1,
                    );
                    assert(pair_texts(self.scheduler_rules@).take(i + 1) =~= next);
                }
                return Some(s);
            }
            i = i + 1;
        }
        proof {
            assert(self.scheduler_rules@.take(n as int) =~= self.scheduler_rules@);
        }
        copy_opt(&self.default_scheduler)
    }

    /// The scheduler for a game with command line `cmdline` (none when it could not be
    /// read): the rules are matched against the lower-cased command line.
    pub fn scheduler_for(&self, cmdline: Option<&str>) -> (r: Option<String>)
        ensures
            opt_text(r) == self@.scheduler_for_path(
                lowercase(
                    match cmdline {
                        Some(c) => c@,
                        None => Seq::<char>::empty(),
                    },
                ),
            ),
    {
        let path = match cmdline {
            Some(c) => to_lower(c),
            None => {
                let e = String::new();
                to_lower(e.as_str())
            },
        };
        self.scheduler_for_path(path.as_str())
    }

    /// The game that a process is, if it is one: `name` is its name, `cmdline` its command
    /// line, and `proton_parent` whether it runs under Proton (consulted only where
    /// `needs_proton_check` says so).
    pub fn detect(&self, name: &str, cmdline: Option<&str>, proton_parent: bool) -> (r: Option<
        Game,
    >)
        ensures
            self@.is_game(name@, lowercase(name@), proton_parent) ==> (r matches Some(g) && g.name@
                == name@ && opt_text(g.scheduler) == self@.scheduler_for_path(
                lowercase(
                    match cmdline {
                        Some(c) => c@,
                        None => Seq::<char>::empty(),
                    },
                ),
            )),
            !self@.is_game(name@, lowercase(name@), proton_parent) ==> r is None,
    {
        let lower = to_lower(name);
        if !self.is_game_named(name, &lower, proton_parent) {
            return None;
        }
        Some(Game { name: name.to_owned(), scheduler: self.scheduler_for(cmdline) })
    }
}

proof fn lemma_first_rule_prefix(rules: Seq<(Seq<char>, Seq<char>)>, path: Seq<char>, k: int)
    requires
        0 <= k <= rules.len(),
        first_rule(rules.take(k), path) is Some,
    ensures
        first_rule(rules, path) == first_rule(rules.take(k), path),
    decreases rules.len() - k,
{
    if k < rules.len() {
        assert(rules.drop_last().take(k) =~= rules.take(k));
        lemma_first_rule_prefix(rules.drop_last(), path, k);
    } else {
        assert(rules.take(k) =~= rules);
    }
}

/// Where a game's name being listed decides: whatever the Proton ancestry, a listed game
/// is a game, and where no Proton check is needed the ancestry does not change the
/// answer.
pub proof fn lemma_proton_irrelevant(m: MatcherView, name: Seq<char>, lower: Seq<char>)
    ensures
        m.game_names.contains(lower) ==> m.is_game(name, lower, false),
        !m.needs_proton(name, lower) ==> m.is_game(name, lower, true) == m.is_game(
            name,
            lower,
            false,
        ),
{
}

/// The parts of a process name that mark a Proton or Wine launcher.
pub open spec fn proton_parents() -> Seq<Seq<char>> {
    seq!["wine"@, "reaper"@, "umu-run"@]
}

/// Whether a process is part of Proton: its lower-cased `comm` holds `wine`, `reaper` or
/// `umu-run`, or its command line holds `proton`.
pub open spec fn proton_markers_spec(comm_lower: Option<Seq<char>>, cmdline: Option<Seq<char>>) -> bool {
    ||| (comm_lower matches Some(c) && exists|k: int|
        0 <= k < 3 && seq_contains(c, #[trigger] proton_parents()[k]))
    ||| (cmdline matches Some(t) && seq_contains(t, "proton"@))
}

/// What marks a Proton process, each mark on its own: a command line that holds `proton`
/// does, whatever the name is and whether it could be read; a name that holds `wine`,
/// `reaper` or `umu-run` does, whatever the command line is; and nothing else does.
pub proof fn lemma_proton_marks(comm_lower: Option<Seq<char>>, cmdline: Option<Seq<char>>)
    ensures
        (cmdline matches Some(t) && seq_contains(t, "proton"@)) ==> proton_markers_spec(
            comm_lower,
            cmdline,
        ),
        (comm_lower matches Some(c) && (seq_contains(c, "wine"@) || seq_contains(c, "reaper"@)
            || seq_contains(c, "umu-run"@))) ==> proton_markers_spec(comm_lower, cmdline),
        proton_markers_spec(comm_lower, cmdline) ==> (cmdline matches Some(t) && seq_contains(
            t,
            "proton"@,
        )) || (comm_lower matches Some(c) && (seq_contains(c, "wine"@) || seq_contains(
            c,
            "reaper"@,
        ) || seq_contains(c, "umu-run"@))),
{
    assert(proton_parents()[0] == "wine"@);
    assert(proton_parents()[1] == "reaper"@);
    assert(proton_parents()[2] == "umu-run"@);
}

/// Whether a process is part of Proton, from its lower-cased `comm` and its command line
/// text (each `None` when it could not be read).
pub fn proton_markers(comm_lower: Option<&str>, cmdline: Option<&str>) -> (r: bool)
    ensures
        r == proton_markers_spec(
            match comm_lower {
                Some(c) => Some(c@),
                None => None,
            },
            match cmdline {
                Some(t) => Some(t@),
                None => None,
            },
        ),
{
    match comm_lower {
        Some(c) => {
            let a = contains(c, "wine");
            let b = contains(c, "reaper");
            let d = contains(c, "umu-run");
            proof {
                assert(proton_parents()[0] == "wine"@);
                assert(proton_parents()[1] == "reaper"@);
                assert(proton_parents()[2] == "umu-run"@);
            }
            if a || b || d {
                return true;
            }
        },
        None => {},
    }
    match cmdline {
        Some(t) => contains(t, "proton"),
        None => false,
    }
}

/// Whether process `comm` with command line bytes `cmdline` is part of Proton: `comm` is
/// lower-cased, and the command line decoded as UTF-8 with replacement characters.
pub fn is_proton_process(comm: Option<&str>, cmdline: Option<&[u8]>) -> (r: bool)
    ensures
        r == proton_markers_spec(
            match comm {
                Some(c) => Some(lowercase(c@)),
                None => None,
            },
            match cmdline {
                Some(b) => Some(utf8_lossy(b@)),
                None => None,
            },
        ),
{
    let lower = match comm {
        Some(c) => Some(to_lower(c)),
        None => None,
    };
    let text = match cmdline {
        Some(b) => Some(lossy(b)),
        None => None,
    };
    let l = match &lower {
        Some(s) => Some(s.as_str()),
        None => None,
    };
    let t = match &text {
        Some(s) => Some(s.as_str()),
        None => None,
    };
    proton_markers(l, t)
}

/// How many ancestors of a process are searched for Proton.
pub const PROTON_SEARCH_DEPTH: u32 = 10;

/// What a walk up the ancestors of a process asks next, or its answer.
#[derive(Clone, Copy, Debug, PartialEq, Eq, Structural)]
pub enum WalkStep {
    /// Read the parent pid of this process, and hand it to `on_parent`.
    ReadParent(u32),
    /// Tell whether this process is part of Proton, and hand that to `on_check`.
    CheckParent(u32),
    /// The answer: whether an ancestor is part of Proton.
    Done(bool),
}

/// The state of a walk up the ancestors of a process, looking for Proton.
pub struct WalkView {
    /// The process whose parent is read next.
    pub current: u32,
    /// The parent that is being checked.
    pub parent: u32,
    /// How many ancestors were checked and found not to be Proton.
    pub hops: u32,
}

impl WalkView {
    pub open spec fn wf(self) -> bool {
        self.hops <= PROTON_SEARCH_DEPTH
    }

    /// The first step from `pid`.
    pub open spec fn begin(pid: u32) -> (WalkView, WalkStep) {
        (
            WalkView { current: pid, parent: 0, hops: 0 },
            if pid <= 1 {
                WalkStep::Done(false)
            } else {
                WalkStep::ReadParent(pid)
            },
        )
    }

    /// After the parent pid of `current` was read (`None` when it could not be).
    pub open spec fn after_parent(self, parent: Option<u32>) -> (WalkView, WalkStep) {
        match parent {
            None => (self, WalkStep::Done(false)),
            Some(p) => if p <= 1 {
                (self, WalkStep::Done(false))
            } else {
                (WalkView { parent: p, ..self }, WalkStep::CheckParent(p))
            },
        }
    }

    /// After the parent was checked for Proton.
    pub open spec fn after_check(self, is_proton: bool) -> (WalkView, WalkStep) {
        if is_proton {
            (self, WalkStep::Done(true))
        } else {
            let hops = if self.hops < PROTON_SEARCH_DEPTH {
                (self.hops + 1) as u32
            } else {
                self.hops
            };
            let next = WalkView { current: self.parent, parent: self.parent, hops };
            if hops >= PROTON_SEARCH_DEPTH || self.parent <= 1 {
                (next, WalkStep::Done(false))
            } else {
                (next, WalkStep::ReadParent(self.parent))
            }
        }
    }
}

/// Whether one of the first `fuel` ancestors of `current` is part of Proton, where `ppid`
/// gives the parent of a process and `proton` tells Proton processes: the search stops at
/// pid 1, or where no parent can be read.
pub open spec fn proton_ancestor(
    current: u32,
    fuel: nat,
    ppid: spec_fn(u32) -> Option<u32>,
    proton: spec_fn(u32) -> bool,
) -> bool
    decreases fuel,
{
    if fuel == 0 || current <= 1 {
        false
    } else {
        match ppid(current) {
            None => false,
            Some(p) => if p <= 1 {
                false
            } else if proton(p) {
                true
            } else {
                proton_ancestor(p, (fuel - 1) as nat, ppid, proton)
            },
        }
    }
}

/// The answer that a walk reaches when each question is answered with `ppid` and `proton`.
pub open spec fn walk_result(
    w: WalkView,
    step: WalkStep,
    ppid: spec_fn(u32) -> Option<u32>,
    proton: spec_fn(u32) -> bool,
) -> bool
    decreases 2 * (PROTON_SEARCH_DEPTH - w.hops) + match step {
        WalkStep::ReadParent(_) => 2int,
        WalkStep::CheckParent(_) => 1int,
        WalkStep::Done(_) => 0int,
    },
    when w.wf()
{
    match step {
        WalkStep::Done(b) => b,
        WalkStep::ReadParent(c) => {
            let (w2, s2) = w.after_parent(ppid(c));
            walk_result(w2, s2, ppid, proton)
        },
        WalkStep::CheckParent(p) => {
            let (w2, s2) = w.after_check(proton(p));
            walk_result(w2, s2, ppid, proton)
        },
    }
}

proof fn lemma_walk_from(
    w: WalkView,
    ppid: spec_fn(u32) -> Option<u32>,
    proton: spec_fn(u32) -> bool,
)
    requires
        w.wf(),
        w.hops < PROTON_SEARCH_DEPTH,
        w.current > 1,
    ensures
        walk_result(w, WalkStep::ReadParent(w.current), ppid, proton) == proton_ancestor(
            w.current,
            (PROTON_SEARCH_DEPTH - w.hops) as nat,
            ppid,
            proton,
        ),
    decreases PROTON_SEARCH_DEPTH - w.hops,
{
    let (w2, s2) = w.after_parent(ppid(w.current));
    assert(walk_result(w, WalkStep::ReadParent(w.current), ppid, proton) == walk_result(
        w2,
        s2,
        ppid,
        proton,
    ));
    match ppid(w.current) {
        None => {},
        Some(p) => {
            if p > 1 {
                assert(s2 == WalkStep::CheckParent(p));
                assert(w2.wf());
                let (w3, s3) = w2.after_check(proton(p));
                assert(walk_result(w2, s2, ppid, proton) == walk_result(w3, s3, ppid, proton));
                let fuel = (PROTON_SEARCH_DEPTH - w.hops) as nat;
                assert(proton_ancestor(w.current, fuel, ppid, proton) == (proton(p)
                    || proton_ancestor(p, (fuel - 1) as nat, ppid, proton)));
                if !proton(p) {
                    assert(w3.current == p);
                    assert(w3.hops == w.hops + 1);
                    if w3.hops < PROTON_SEARCH_DEPTH {
                        lemma_walk_from(w3, ppid, proton);
                        assert((PROTON_SEARCH_DEPTH - w3.hops) as nat == (fuel - 1) as nat);
                    } else {
                        assert((fuel - 1) as nat == 0);
                        assert(!proton_ancestor(p, 0, ppid, proton));
                    }
                }
            }
        },
    }
}

/// The walk asks exactly what the search of the first `PROTON_SEARCH_DEPTH` ancestors
/// needs: answered with `ppid` and `proton`, it ends with `proton_ancestor(pid, ...)`.
pub proof fn lemma_walk_agrees(
    pid: u32,
    ppid: spec_fn(u32) -> Option<u32>,
    proton: spec_fn(u32) -> bool,
)
    ensures
        walk_result(WalkView::begin(pid).0, WalkView::begin(pid).1, ppid, proton)
            == proton_ancestor(pid, PROTON_SEARCH_DEPTH as nat, ppid, proton),
{
    if pid > 1 {
        lemma_walk_from(WalkView::begin(pid).0, ppid, proton);
    }
}

/// A walk up the ancestors of a process that looks for Proton. The caller does the
/// reading that each step asks for and hands the result back.
pub struct ProtonWalk {
    current: u32,
    parent: u32,
    hops: u32,
}

impl View for ProtonWalk {
    type V = WalkView;

    closed spec fn view(&self) -> WalkView {
        WalkView { current: self.current, parent: self.parent, hops: self.hops }
    }
}

impl ProtonWalk {
    /// A walk from `pid`, and its first step.
    pub fn start(pid: u32) -> (r: (ProtonWalk, WalkStep))
        ensures
            r.0@.wf(),
            (r.0@, r.1) == WalkView::begin(pid),
    {
        let w = ProtonWalk { current: pid, parent: 0, hops: 0 };
        if pid <= 1 {
            (w, WalkStep::Done(false))
        } else {
            (w, WalkStep::ReadParent(pid))
        }
    }

    /// Takes in the parent pid of the current process (`None` when it could not be read).
    pub fn on_parent(&mut self, parent: Option<u32>) -> (r: WalkStep)
        requires
            old(self)@.wf(),
        ensures
            final(self)@.wf(),
            (final(self)@, r) == old(self)@.after_parent(parent),
    {
        match parent {
            None => WalkStep::Done(false),
            Some(p) => if p <= 1 {
                WalkStep::Done(false)
            } else {
                self.parent = p;
                WalkStep::CheckParent(p)
            },
        }
    }

    /// Takes in whether the parent is part of Proton.
    pub fn on_check(&mut self, is_proton: bool) -> (r: WalkStep)
        requires
            old(self)@.wf(),
        ensures
            final(self)@.wf(),
            (final(self)@, r) == old(self)@.after_check(is_proton),
    {
        if is_proton {
            return WalkStep::Done(true);
        }
        if self.hops < PROTON_SEARCH_DEPTH {
            self.hops = self.hops + 1;
        }
        self.current = self.parent;
        if self.hops >= PROTON_SEARCH_DEPTH || self.parent <= 1 {
            WalkStep::Done(false)
        } else {
            WalkStep::ReadParent(self.parent)
        }
    }
}

} // verus!
