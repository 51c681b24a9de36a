use crate::text::{lowercase, to_lower};
use vstd::prelude::*;

verus! {

/// The texts of a list of strings.
pub open spec fn texts(v: Seq<String>) -> Seq<Seq<char>> {
    v.map_values(|s: String| s@)
}

/// The lower-cased texts of a list of strings.
pub open spec fn lowered_spec(v: Seq<String>) -> Seq<Seq<char>> {
    v.map_values(|s: String| lowercase(s@))
}

/// The texts of a list of string pairs.
pub open spec fn pair_texts(v: Seq<(String, String)>) -> Seq<(Seq<char>, Seq<char>)> {
    v.map_values(|p: (String, String)| (p.0@, p.1@))
}


pub proof fn lemma_texts_push(s: Seq<String>, x: String)
    ensures
        texts(s.push(x)) == texts(s).push(x@),
{
    assert forall|k: int| 0 <= k <= s.len() implies #[trigger] texts(s.push(x))[k] == texts(
        s,
    ).push(x@)[k] by {
        assert(texts(s.push(x))[k] == s.push(x)[k]@);
        if k < s.len() {
            assert(texts(s)[k] == s[k]@);
        }
    }
    assert(texts(s.push(x)) =~= texts(s).push(x@));
}

pub proof fn lemma_texts_append(a: Seq<String>, b: Seq<String>)
    ensures
        texts(a + b) == texts(a) + texts(b),
{
    assert forall|k: int| 0 <= k < a.len() + b.len() implies #[trigger] texts(a + b)[k] == (
    texts(a) + texts(b))[k] by {
        assert(texts(a + b)[k] == (a + b)[k]@);
        if k < a.len() {
            assert(texts(a)[k] == a[k]@);
        } else {
            assert(texts(b)[k - a.len()] == b[k - a.len()]@);
        }
    }
    assert(texts(a + b) =~= texts(a) + texts(b));
}

pub proof fn lemma_lowered_push(s: Seq<String>, x: String)
    ensures
        lowered_spec(s.push(x)) == lowered_spec(s).push(lowercase(x@)),
{
    assert forall|k: int| 0 <= k <= s.len() implies #[trigger] lowered_spec(s.push(x))[k]
        == lowered_spec(s).push(lowercase(x@))[k] by {
        assert(lowered_spec(s.push(x))[k] == lowercase(s.push(x)[k]@));
        if k < s.len() {
            assert(lowered_spec(s)[k] == lowercase(s[k]@));
        }
    }
    assert(lowered_spec(s.push(x)) =~= lowered_spec(s).push(lowercase(x@)));
}

pub proof fn lemma_pair_texts_push(s: Seq<(String, String)>, x: (String, String))
    ensures
        pair_texts(s.push(x)) == pair_texts(s).push((x.0@, x.1@)),
{
    assert forall|k: int| 0 <= k <= s.len() implies #[trigger] pair_texts(s.push(x))[k]
        == pair_texts(s).push((x.0@, x.1@))[k] by {
        assert(pair_texts(s.push(x))[k] == (s.push(x)[k].0@, s.push(x)[k].1@));
        if k < s.len() {
            assert(pair_texts(s)[k] == (s[k].0@, s[k].1@));
        }
    }
    assert(pair_texts(s.push(x)) =~= pair_texts(s).push((x.0@, x.1@)));
}

pub proof fn lemma_lowered_rules_push(s: Seq<(String, String)>, x: (String, String))
    ensures
        lowered_rules(s.push(x)) == lowered_rules(s).push((lowercase(x.0@), x.1@)),
{
    assert forall|k: int| 0 <= k <= s.len() implies #[trigger] lowered_rules(s.push(x))[k]
        == lowered_rules(s).push((lowercase(x.0@), x.1@))[k] by {
        assert(lowered_rules(s.push(x))[k] == (lowercase(s.push(x)[k].0@), s.push(x)[k].1@));
        if k < s.len() {
            assert(lowered_rules(s)[k] == (lowercase(s[k].0@), s[k].1@));
        }
    }
    assert(lowered_rules(s.push(x)) =~= lowered_rules(s).push((lowercase(x.0@), x.1@)));
}

/// Each string lower-cased, in order.
pub fn lowered(values: &Vec<String>) -> (r: Vec<String>)
    ensures
        texts(r@) == lowered_spec(values@),
{
    let mut r: Vec<String> = Vec::new();
    let n = values.len();
    let mut i: usize = 0;
    while i < n
        invariant
            i <= n,
            n == values@.len(),
            texts(r@) == lowered_spec(values@.take(i as int)),
        decreases n - i,
    {
        let ghost prev = r@;
        let l = to_lower(values[i].as_str());
        r.push(l);
        proof {
            lemma_texts_push(prev, l);
            assert(values@.take(i + 1) =~= values@.take(i as int).push(values@[i as int]));
            lemma_lowered_push(values@.take(i as int), values@[i as int]);
        }
        i = i + 1;
    }
    assert(values@.take(n as int) =~= values@);
    r
}

/// A copy of a list of strings.
pub fn copy_texts(values: &Vec<String>) -> (r: Vec<String>)
    ensures
        texts(r@) == texts(values@),
{
    let mut r: Vec<String> = Vec::new();
    let n = values.len();
    let mut i: usize = 0;
    while i < n
        invariant
            i <= n,
            n == values@.len(),
            texts(r@) == texts(values@.take(i as int)),
        decreases n - i,
    {
        let ghost prev = r@;
        let c = values[i].clone();
        r.push(c);
        proof {
            lemma_texts_push(prev, c);
            assert(values@.take(i + 1) =~= values@.take(i as int).push(values@[i as int]));
            lemma_texts_push(values@.take(i as int), values@[i as int]);
        }
        i = i + 1;
    }
    assert(values@.take(n as int) =~= values@);
    r
}

/// A copy of a list of string pairs.
pub fn copy_pairs(values: &Vec<(String, String)>) -> (r: Vec<(String, String)>)
    ensures
        pair_texts(r@) == pair_texts(values@),
{
    let mut r: Vec<(String, String)> = Vec::new();
    let n = values.len();
    let mut i: usize = 0;
    while i < n
        invariant
            i <= n,
            n == values@.len(),
            pair_texts(r@) == pair_texts(values@.take(i as int)),
        decreases n - i,
    {
        let ghost prev = r@;
        let a = values[i].0.clone();
        let b = values[i].1.clone();
        r.push((a, b));
        proof {
            lemma_pair_texts_push(prev, (a, b));
            assert(values@.take(i + 1) =~= values@.take(i as int).push(values@[i as int]));
            lemma_pair_texts_push(values@.take(i as int), values@[i as int]);
        }
        i = i + 1;
    }
    assert(values@.take(n as int) =~= values@);
    r
}

/// A copy of an optional string.
pub fn copy_opt(value: &Option<String>) -> (r: Option<String>)
    ensures
        match r {
            Some(s) => value matches Some(v) && s@ == v@,
            None => value is None,
        },
{
    match value {
        Some(s) => Some(s.clone()),
        None => None,
    }
}

/// The games that are known without any configuration.
pub open spec fn default_game_names_spec() -> Seq<Seq<char>> {
    seq![
        "zenlesszonezero.exe"@,
        "genshinimpact.exe"@,
        "yuanshen.exe"@,
        "starrail.exe"@,
        "bh3.exe"@,
        "cs2"@,
        "dota2"@,
        "factorio"@,
    ]
}

/// The games that are known without any configuration.
pub fn default_game_names() -> (r: Vec<String>)
    ensures
        texts(r@) == default_game_names_spec(),
{
    let mut r: Vec<String> = Vec::new();
    r.push("zenlesszonezero.exe".to_owned());
    r.push("genshinimpact.exe".to_owned());
    r.push("yuanshen.exe".to_owned());
    r.push("starrail.exe".to_owned());
    r.push("bh3.exe".to_owned());
    r.push("cs2".to_owned());
    r.push("dota2".to_owned());
    r.push("factorio".to_owned());
    assert(texts(r@) =~= default_game_names_spec());
    r
}

/// What the user's configuration file holds.
pub struct UserSettings {
    /// Further game executables.
    pub games: Vec<String>,
    /// Executables that are never games.
    pub ignore: Vec<String>,
    /// The scheduler to start for a game that no rule names.
    pub scheduler: Option<String>,
    /// Pairs of a text to look for in a game's command line and the scheduler for it.
    pub schedulers: Vec<(String, String)>,
}

/// What the daemon matches games against.
pub struct Config {
    pub system_exes: Vec<String>,
    pub game_names: Vec<String>,
    pub default_scheduler: Option<String>,
    pub scheduler_rules: Vec<(String, String)>,
}

/// The rules with their texts lower-cased and their schedulers kept.
pub open spec fn lowered_rules(v: Seq<(String, String)>) -> Seq<(Seq<char>, Seq<char>)> {
    v.map_values(|p: (String, String)| (lowercase(p.0@), p.1@))
}

impl Config {
    /// Whether the configuration asks for a sched_ext scheduler at all: a default one, or
    /// a rule.
    pub fn wants_scheduler(&self) -> (r: bool)
        ensures
            r == (self.default_scheduler is Some || self.scheduler_rules@.len() > 0),
    {
        self.default_scheduler.is_some() || self.scheduler_rules.len() > 0
    }

    /// The configuration made of the built-in list of system processes and, when the user
    /// has a configuration file, its settings: names are lower-cased, the user's games
    /// follow the built-in ones, the ignored executables follow the system processes.
    pub fn from_parts(system_processes: &Vec<String>, user: Option<UserSettings>) -> (c: Config)
        ensures
            texts(c.system_exes@) == lowered_spec(system_processes@) + match user {
                Some(u) => lowered_spec(u.ignore@),
                None => Seq::empty(),
            },
            texts(c.game_names@) == default_game_names_spec().map_values(
                |s: Seq<char>| lowercase(s),
            ) + match user {
                Some(u) => lowered_spec(u.games@),
                None => Seq::empty(),
            },
            match user {
                Some(u) => match c.default_scheduler {
                    Some(s) => u.scheduler matches Some(t) && s@ == t@,
                    None => u.scheduler is None,
                },
                None => c.default_scheduler is None,
            },
            pair_texts(c.scheduler_rules@) == match user {
                Some(u) => lowered_rules(u.schedulers@),
                None => Seq::empty(),
            },
    {
        let mut system_exes = lowered(system_processes);
        let defaults = default_game_names();
        let mut game_names = lowered(&defaults);
        proof {
            assert(lowered_spec(defaults@) =~= default_game_names_spec().map_values(
                |s: Seq<char>| lowercase(s),
            ));
        }
        match user {
            Some(u) => {
                let ghost se = system_exes@;
                let ghost gn = game_names@;
                let mut more_ignore = lowered(&u.ignore);
                let mut more_games = lowered(&u.games);
                let ghost mi = more_ignore@;
                let ghost mg = more_games@;
                system_exes.append(&mut more_ignore);
                game_names.append(&mut more_games);
                proof {
                    lemma_texts_append(se, mi);
                    lemma_texts_append(gn, mg);
                }
                let mut rules: Vec<(String, String)> = Vec::new();
                let n = u.schedulers.len();
                let mut i: usize = 0;
                while i < n
                    invariant
                        i <= n,
                        n == u.schedulers@.len(),
                        pair_texts(rules@) == lowered_rules(u.schedulers@.take(i as int)),
                    decreases n - i,
                {
                    let ghost prev = rules@;
                    let k = to_lower(u.schedulers[i].0.as_str());
                    let v = u.schedulers[i].1.clone();
                    rules.push((k, v));
                    proof {
                        lemma_pair_texts_push(prev, (k, v));
                        assert(u.schedulers@.take(i + 1) =~= u.schedulers@.take(i as int).push(
                            u.schedulers@[i as int],
                        ));
                        lemma_lowered_rules_push(u.schedulers@.take(i as int), u.schedulers@[i as int]);
                    }
                    i = i + 1;
                }
                assert(u.schedulers@.take(n as int) =~= u.schedulers@);
                let default_scheduler = copy_opt(&u.scheduler);
                Config { system_exes, game_names, default_scheduler, scheduler_rules: rules }
            },
            None => {
                proof {
                    assert(texts(system_exes@) =~= lowered_spec(system_processes@) + Seq::empty());
                    assert(texts(game_names@) =~= lowered_spec(defaults@) + Seq::empty());
                    assert(pair_texts(Seq::<(String, String)>::empty()) =~= Seq::empty());
                }
                Config {
                    system_exes,
                    game_names,
                    default_scheduler: None,
                    scheduler_rules: Vec::new(),
                }
            },
        }
    }
}

} // verus!
