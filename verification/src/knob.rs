use crate::text::{
    chars_of, is_white_space, same_text, trim, trimmed, white_space,
};
use crate::path_order::{lemma_path_before_order, path_before, path_parts, path_place, Placement};
use vstd::prelude::*;

verus! {

/// One setting to apply: the value that should stand in the sysfs file at `path`.
pub struct PerfWrite {
    pub path: String,
    pub value: String,
}

impl PerfWrite {
    pub fn new(path: String, value: String) -> (w: PerfWrite)
        ensures
            w.path@ == path@,
            w.value@ == value@,
    {
        PerfWrite { path, value }
    }
}

/// The map that a list of `(path, value)` entries stands for; a later entry wins.
pub open spec fn entries_map(e: Seq<(String, String)>) -> Map<Seq<char>, Seq<char>>
    decreases e.len(),
{
    if e.len() == 0 {
        Map::empty()
    } else {
        entries_map(e.drop_last()).insert(e.last().0@, e.last().1@)
    }
}

/// The paths of a list of entries, in order.
pub open spec fn entry_keys(e: Seq<(String, String)>) -> Seq<Seq<char>> {
    e.map_values(|p: (String, String)| p.0@)
}

proof fn lemma_entries_map_dom(e: Seq<(String, String)>)
    ensures
        entries_map(e).dom() == entry_keys(e).to_set(),
    decreases e.len(),
{
    if e.len() > 0 {
        lemma_entries_map_dom(e.drop_last());
        assert(entry_keys(e.drop_last()) =~= entry_keys(e).drop_last());
        assert(entry_keys(e) =~= entry_keys(e.drop_last()).push(e.last().0@));
        entry_keys(e.drop_last()).lemma_push_to_set_commute(e.last().0@);
    } else {
        assert(entry_keys(e).to_set() =~= Set::empty());
    }
}

/// The keys of a list of entries stand in strictly increasing `path_before` order.
pub open spec fn sorted_keys(e: Seq<(String, String)>) -> bool {
    forall|a: int, b: int|
        0 <= a < b < e.len() ==> path_before(#[trigger] e[a].0@, #[trigger] e[b].0@)
}

proof fn lemma_sorted_distinct(e: Seq<(String, String)>)
    requires
        sorted_keys(e),
    ensures
        entry_keys(e).no_duplicates(),
{
    assert forall|a: int, b: int|
        0 <= a < entry_keys(e).len() && 0 <= b < entry_keys(e).len() && a != b implies
        entry_keys(e)[a] != entry_keys(e)[b] by {
        lemma_path_before_order(e[a].0@, e[b].0@, e[a].0@);
        if a < b {
            assert(path_before(e[a].0@, e[b].0@));
        } else {
            assert(path_before(e[b].0@, e[a].0@));
        }
    }
}

/// Whether `m` has a key that names the same path as `p`: the same components.
pub open spec fn has_path(m: Map<Seq<char>, Seq<char>>, p: Seq<char>) -> bool {
    exists|k: Seq<char>| #[trigger] m.contains_key(k) && path_parts(k) == path_parts(p)
}

/// The key of `m` that names the same path as `p`.
pub open spec fn path_key(m: Map<Seq<char>, Seq<char>>, p: Seq<char>) -> Seq<char> {
    choose|k: Seq<char>| #[trigger] m.contains_key(k) && path_parts(k) == path_parts(p)
}

/// `m` with `p` recorded as holding `v`, as a map keyed by `Path` records it: where a key
/// names the same path, its value is replaced and the key, as first written, is kept.
pub open spec fn record(m: Map<Seq<char>, Seq<char>>, p: Seq<char>, v: Seq<char>) -> Map<
    Seq<char>,
    Seq<char>,
> {
    if has_path(m, p) {
        m.insert(path_key(m, p), v)
    } else {
        m.insert(p, v)
    }
}

proof fn lemma_key_in_entries(e: Seq<(String, String)>, k: Seq<char>)
    requires
        entries_map(e).contains_key(k),
    ensures
        exists|j: int| 0 <= j < e.len() && #[trigger] e[j].0@ == k,
{
    lemma_entries_map_dom(e);
    assert(entry_keys(e).to_set().contains(k));
    let j = entry_keys(e).index_of(k);
    assert(e[j].0@ == entry_keys(e)[j]);
}

proof fn lemma_entry_in_map(e: Seq<(String, String)>, j: int)
    requires
        0 <= j < e.len(),
    ensures
        entries_map(e).contains_key(e[j].0@),
{
    lemma_entries_map_dom(e);
    assert(entry_keys(e)[j] == e[j].0@);
    assert(entry_keys(e).contains(e[j].0@));
}

proof fn lemma_entries_map_insert(e: Seq<(String, String)>, i: int, x: (String, String))
    requires
        0 <= i <= e.len(),
        forall|k: int| 0 <= k < e.len() ==> #[trigger] e[k].0@ != x.0@,
    ensures
        entries_map(e.insert(i, x)) == entries_map(e).insert(x.0@, x.1@),
    decreases e.len(),
{
    let u = e.insert(i, x);
    if i == e.len() {
        assert(u =~= e.push(x));
        assert(u.drop_last() =~= e);
    } else {
        let d = e.drop_last();
        assert(u.drop_last() =~= d.insert(i, x));
        assert(u.last() == e.last());
        assert forall|k: int| 0 <= k < d.len() implies #[trigger] d[k].0@ != x.0@ by {
            assert(d[k] == e[k]);
        }
        lemma_entries_map_insert(d, i, x);
        assert(e.last().0@ != x.0@) by {
            assert(e[e.len() - 1] == e.last());
        }
        assert(entries_map(u) =~= entries_map(e).insert(x.0@, x.1@));
    }
}

proof fn lemma_entries_map_update(e: Seq<(String, String)>, i: int, v: String)
    requires
        0 <= i < e.len(),
        entry_keys(e).no_duplicates(),
    ensures
        entries_map(e.update(i, (e[i].0, v))) == entries_map(e).insert(e[i].0@, v@),
    decreases e.len(),
{
    let u = e.update(i, (e[i].0, v));
    if i == e.len() - 1 {
        assert(u.drop_last() =~= e.drop_last());
        let d = e.drop_last();
        lemma_entries_map_dom(d);
        assert forall|k: int| 0 <= k < d.len() implies entry_keys(d)[k] != e[i].0@ by {
            assert(entry_keys(e)[k] == entry_keys(d)[k]);
            assert(entry_keys(e)[i] == e[i].0@);
            assert(entry_keys(e)[k] != entry_keys(e)[i]);
        }
        assert(entries_map(u) =~= entries_map(e).insert(e[i].0@, v@));
    } else {
        let d = e.drop_last();
        assert(u.drop_last() =~= d.update(i, (e[i].0, v)));
        assert(entry_keys(d) =~= entry_keys(e).drop_last());
        lemma_entries_map_update(d, i, v);
        assert(entry_keys(e)[i] != entry_keys(e)[e.len() - 1]);
        assert(entries_map(u) =~= entries_map(e).insert(e[i].0@, v@));
    }
}

/// The settings that were changed, each with the value it held before: what a restore
/// writes back. Each path occurs at most once, and the entries are kept in path order.
pub struct Snapshot {
    entries: Vec<(String, String)>,
}

impl View for Snapshot {
    type V = Map<Seq<char>, Seq<char>>;

    closed spec fn view(&self) -> Map<Seq<char>, Seq<char>> {
        entries_map(self.entries@)
    }
}

impl Default for Snapshot {
    fn default() -> (s: Snapshot)
        ensures
            s.wf(),
            s@ == Map::<Seq<char>, Seq<char>>::empty(),
    {
        Snapshot::new()
    }
}

impl Snapshot {
    /// Each path is recorded once, and the entries stand in path order.
    pub closed spec fn wf(&self) -> bool {
        &&& entry_keys(self.entries@).no_duplicates()
        &&& sorted_keys(self.entries@)
    }

    /// The recorded entries, in path order.
    pub closed spec fn entry_seq(&self) -> Seq<(String, String)> {
        self.entries@
    }

    pub proof fn lemma_wf_view(&self)
        requires
            self.wf(),
        ensures
            self@.dom().finite(),
            self@.dom().len() == self.entry_seq().len(),
            entries_map(self.entry_seq()) == self@,
            entry_keys(self.entry_seq()).no_duplicates(),
    {
        let k = entry_keys(self.entries@);
        assert(k.no_duplicates());
        lemma_entries_map_dom(self.entries@);
        k.unique_seq_to_set();
    }

    /// An empty snapshot.
    pub fn new() -> (s: Snapshot)
        ensures
            s.wf(),
            s@ == Map::<Seq<char>, Seq<char>>::empty(),
    {
        let s = Snapshot { entries: Vec::new() };
        assert(entry_keys(s.entries@) =~= Seq::empty());
        s
    }

    /// Records that `path` held `previous` before it was changed. Where a recorded key names
    /// the same path (the same components), its value is replaced, as a map keyed by `Path`
    /// does; a new path takes its place in path order.
    pub fn insert(&mut self, path: String, previous: String)
        requires
            old(self).wf(),
        ensures
            final(self).wf(),
            final(self)@ == record(old(self)@, path@, previous@),
    {
        let n = self.entries.len();
        let ghost m = self@;
        let mut i: usize = 0;
        while i < n
            invariant
                i <= n,
                n == self.entries@.len(),
                self.entries@ == old(self).entries@,
                m == entries_map(self.entries@),
                entry_keys(self.entries@).no_duplicates(),
                sorted_keys(self.entries@),
                forall|k: int| 0 <= k < i ==> path_before(#[trigger] self.entries@[k].0@, path@),
            decreases n - i,
        {
            let place = path_place(&path, &self.entries[i].0);
            if place == Placement::Same {
                let ghost e = self.entries@;
                proof {
                    lemma_entry_in_map(e, i as int);
                    assert(has_path(m, path@));
                    let k = path_key(m, path@);
                    lemma_key_in_entries(e, k);
                    let j = choose|j: int| 0 <= j < e.len() && #[trigger] e[j].0@ == k;
                    if j != i {
                        lemma_path_before_order(e[j].0@, e[i as int].0@, e[j].0@);
                        lemma_path_before_order(e[i as int].0@, e[j].0@, e[i as int].0@);
                    }
                    assert(k == e[i as int].0@);
                    lemma_entries_map_update(e, i as int, previous);
                }
                let key = self.entries[i].0.clone();
                self.entries.set(i, (key, previous));
                assert(self.entries@ =~= e.update(i as int, (e[i as int].0, previous)));
                assert(entry_keys(self.entries@) =~= entry_keys(e));
                assert forall|a: int, b: int| 0 <= a < b < self.entries@.len() implies path_before(
                    #[trigger] self.entries@[a].0@,
                    #[trigger] self.entries@[b].0@,
                ) by {
                    assert(self.entries@[a].0@ == entry_keys(self.entries@)[a]);
                    assert(self.entries@[b].0@ == entry_keys(self.entries@)[b]);
                    assert(e[a].0@ == entry_keys(e)[a]);
                    assert(e[b].0@ == entry_keys(e)[b]);
                }
                return;
            }
            if place == Placement::Before {
                let ghost e = self.entries@;
                let ghost x = (path, previous);
                proof {
                    assert forall|k: int| 0 <= k < e.len() implies path_parts(#[trigger] e[k].0@)
                        != path_parts(x.0@) by {
                        lemma_path_before_order(e[k].0@, x.0@, e[i as int].0@);
                        lemma_path_before_order(x.0@, e[i as int].0@, e[k].0@);
                        lemma_path_before_order(x.0@, e[k].0@, x.0@);
                        if k < i {
                            assert(path_before(e[k].0@, x.0@));
                        } else if k > i {
                            assert(path_before(e[i as int].0@, e[k].0@));
                        }
                    }
                    assert forall|k: int| 0 <= k < e.len() implies #[trigger] e[k].0@ != x.0@ by {
                        assert(path_parts(e[k].0@) != path_parts(x.0@));
                    }
                    assert(!has_path(m, path@)) by {
                        if has_path(m, path@) {
                            let k = choose|k: Seq<char>| #[trigger] m.contains_key(k)
                                && path_parts(k) == path_parts(path@);
                            lemma_key_in_entries(e, k);
                            let j = choose|j: int| 0 <= j < e.len() && #[trigger] e[j].0@ == k;
                            assert(path_parts(e[j].0@) != path_parts(x.0@));
                        }
                    }
                    lemma_entries_map_insert(e, i as int, x);
                }
                self.entries.insert(i, (path, previous));
                proof {
                    let u = self.entries@;
                    assert(u == e.insert(i as int, x));
                    e.insert_ensures(i as int, x);
                    assert forall|a: int, b: int| 0 <= a < b < u.len() implies path_before(
                        #[trigger] u[a].0@,
                        #[trigger] u[b].0@,
                    ) by {
                        if b < i {
                        } else if b == i {
                            assert(u[a] == e[a]);
                        } else if a < i {
                            assert(u[a] == e[a] && u[b] == e[b - 1]);
                        } else if a == i {
                            assert(u[b] == e[b - 1]);
                            if b - 1 > i {
                                lemma_path_before_order(x.0@, e[i as int].0@, e[b - 1].0@);
                            }
                        } else {
                            assert(u[a] == e[a - 1] && u[b] == e[b - 1]);
                        }
                    }
                    lemma_sorted_distinct(u);
                }
                return;
            }
            i = i + 1;
        }
        let ghost e = self.entries@;
        proof {
            assert forall|k: int| 0 <= k < e.len() implies path_parts(#[trigger] e[k].0@)
                != path_parts(path@) by {
                lemma_path_before_order(e[k].0@, path@, e[k].0@);
            }
            assert(!has_path(m, path@)) by {
                if has_path(m, path@) {
                    let k = choose|k: Seq<char>| #[trigger] m.contains_key(k) && path_parts(k)
                        == path_parts(path@);
                    lemma_key_in_entries(e, k);
                    let j = choose|j: int| 0 <= j < e.len() && #[trigger] e[j].0@ == k;
                    assert(path_parts(e[j].0@) != path_parts(path@));
                }
            }
        }
        self.entries.push((path, previous));
        proof {
            assert(self.entries@.drop_last() =~= e);
            assert(self.entries@.last() == (path, previous));
            assert(entry_keys(self.entries@) =~= entry_keys(e).push(path@));
            let u = self.entries@;
            assert forall|a: int, b: int| 0 <= a < b < u.len() implies path_before(
                #[trigger] u[a].0@,
                #[trigger] u[b].0@,
            ) by {
                assert(u[a] == e[a]);
                if b < n {
                    assert(u[b] == e[b]);
                }
            }
            lemma_sorted_distinct(u);
        }
    }

    /// The number of recorded settings.
    pub fn len(&self) -> (r: usize)
        requires
            self.wf(),
        ensures
            r == self@.dom().len(),
    {
        proof {
            self.lemma_wf_view();
        }
        self.entries.len()
    }

    /// Whether nothing was recorded.
    pub fn is_empty(&self) -> (r: bool)
        requires
            self.wf(),
        ensures
            r == (self@.dom().len() == 0),
    {
        proof {
            self.lemma_wf_view();
        }
        self.entries.len() == 0
    }

    /// The recorded `(path, old value)` pairs, each path once, in path order.
    pub fn entries(&self) -> (r: &Vec<(String, String)>)
        requires
            self.wf(),
        ensures
            r@ == self.entry_seq(),
            entries_map(r@) == self@,
            entry_keys(r@).no_duplicates(),
            sorted_keys(r@),
    {
        &self.entries
    }

    /// A copy of this snapshot.
    pub fn duplicate(&self) -> (r: Snapshot)
        requires
            self.wf(),
        ensures
            r.wf(),
            r@ == self@,
            r.entry_seq() == self.entry_seq(),
    {
        let mut v: Vec<(String, String)> = Vec::new();
        let n = self.entries.len();
        let mut i: usize = 0;
        while i < n
            invariant
                i <= n,
                n == self.entries@.len(),
                v@ == self.entries@.take(i as int),
            decreases n - i,
        {
            let a = self.entries[i].0.clone();
            let b = self.entries[i].1.clone();
            v.push((a, b));
            proof {
                assert(v@ =~= self.entries@.take(i + 1));
            }
            i = i + 1;
        }
        assert(v@ =~= self.entries@);
        Snapshot { entries: v }
    }
}

/// The white-space separated words of `s`, as `str::split_whitespace` gives them.
pub open spec fn ws_tokens(s: Seq<char>) -> Seq<Seq<char>>
    decreases s.len(),
{
    if s.len() == 0 {
        Seq::empty()
    } else {
        let r = ws_tokens(s.drop_last());
        let c = s.last();
        if is_white_space(c) {
            r
        } else if s.len() >= 2 && !is_white_space(s[s.len() - 2]) && r.len() > 0 {
            r.update(r.len() - 1, r.last().push(c))
        } else {
            r.push(seq![c])
        }
    }
}

proof fn lemma_ws_tokens_step(s: Seq<char>, done: Seq<Seq<char>>, start: int, i: int)
    requires
        0 <= start <= i < s.len(),
        forall|k: int| start <= k < i ==> !is_white_space(#[trigger] s[k]),
        start > 0 ==> is_white_space(s[start - 1]),
        ws_tokens(s.take(i)) == if start < i {
            done.push(s.subrange(start, i))
        } else {
            done
        },
    ensures
        is_white_space(s[i]) ==> ws_tokens(s.take(i + 1)) == ws_tokens(s.take(i)),
        !is_white_space(s[i]) ==> ws_tokens(s.take(i + 1)) == done.push(s.subrange(start, i + 1)),
{
    let t = s.take(i + 1);
    assert(t.drop_last() =~= s.take(i));
    assert(t.last() == s[i]);
    if !is_white_space(s[i]) {
        if start < i {
            assert(t[t.len() - 2] == s[i - 1]);
            assert(s.subrange(start, i).push(s[i]) =~= s.subrange(start, i + 1));
            let r = done.push(s.subrange(start, i));
            assert(r.update(r.len() - 1, r.last().push(s[i])) =~= done.push(
                s.subrange(start, i + 1),
            ));
        } else {
            if i > 0 {
                assert(t[t.len() - 2] == s[i - 1]);
            }
            assert(s.subrange(start, i + 1) =~= seq![s[i]]);
        }
    }
}

proof fn lemma_push_contains(done: Seq<Seq<char>>, piece: Seq<char>, want: Seq<char>)
    ensures
        done.push(piece).contains(want) == (done.contains(want) || piece == want),
{
    if piece == want {
        assert(done.push(piece)[done.len() as int] == piece);
    }
    if done.push(piece).contains(want) && piece != want {
        let k = choose|k: int| 0 <= k < done.push(piece).len() && done.push(piece)[k] == want;
        assert(done[k] == want);
    }
    if done.contains(want) {
        let k = choose|k: int| 0 <= k < done.len() && done[k] == want;
        assert(done.push(piece)[k] == want);
    }
}

/// Whether `want` is one of the white-space separated words of `text`.
pub open spec fn word_listed(text: Seq<char>, want: Seq<char>) -> bool {
    ws_tokens(text).contains(want)
}

/// Whether `want` is one of the white-space separated words of `text`, as the list of
/// available governors is read.
pub fn governor_available(text: &str, want: &str) -> (r: bool)
    ensures
        r == word_listed(text@, want@),
{
    let cs = chars_of(text);
    let n = cs.len();
    let mut start: usize = 0;
    let mut found = false;
    let ghost mut done: Seq<Seq<char>> = Seq::empty();
    proof {
        assert(cs@.take(0) =~= Seq::<char>::empty());
    }
    let mut i: usize = 0;
    while i < n
        invariant
            start <= i <= n,
            n == cs@.len(),
            cs@ == text@,
            forall|k: int| start <= k < i ==> !is_white_space(#[trigger] cs@[k]),
            start > 0 ==> is_white_space(cs@[start - 1]),
            ws_tokens(cs@.take(i as int)) == if start < i {
                done.push(cs@.subrange(start as int, i as int))
            } else {
                done
            },
            found == done.contains(want@),
        decreases n - i,
    {
        proof {
            lemma_ws_tokens_step(cs@, done, start as int, i as int);
        }
        if white_space(cs[i]) {
            if start < i {
                let word = vstd::slice::slice_subrange(cs.as_slice(), start, i);
                let w = crate::text::string_of(word);
                let same = same_text(w.as_str(), want);
                proof {
                    let piece = cs@.subrange(start as int, i as int);
                    lemma_push_contains(done, piece, want@);
                    done = done.push(piece);
                }
                found = found || same;
            }
            start = i + 1;
        }
        i = i + 1;
    }
    proof {
        assert(cs@.take(n as int) =~= cs@);
    }
    if start < n {
        let word = vstd::slice::slice_subrange(cs.as_slice(), start, n);
        let w = crate::text::string_of(word);
        let same = same_text(w.as_str(), want);
        proof {
            let piece = cs@.subrange(start as int, n as int);
            lemma_push_contains(done, piece, want@);
        }
        found || same
    } else {
        found
    }
}

/// `dir` joined with the relative `name`, as `Path::join` joins them: a `/` goes between
/// them unless `dir` is empty or already ends in one.
pub open spec fn join_spec(dir: Seq<char>, name: Seq<char>) -> Seq<char> {
    if dir.len() == 0 || dir.last() == '/' {
        dir + name
    } else {
        dir + seq!['/'] + name
    }
}

/// `dir` joined with the relative `name`; see `join_spec`.
pub fn join(dir: &str, name: &str) -> (r: String)
    ensures
        r@ == join_spec(dir@, name@),
{
    let cs = chars_of(dir);
    let n = cs.len();
    let mut out = dir.to_owned();
    if n > 0 && cs[n - 1] != '/' {
        let sep = "/";
        proof {
            reveal_strlit("/");
        }
        out.append(sep);
    }
    out.append(name);
    proof {
        if n > 0 {
            assert(cs@.last() == cs@[n - 1]);
        }
    }
    out
}

/// What is known of one cpufreq policy directory: its path, the text of its
/// `scaling_available_governors` (`None` when it could not be read), and whether it has an
/// `energy_performance_preference` file.
pub struct PolicyProbe {
    pub dir: String,
    pub available_governors: Option<String>,
    pub has_epp: bool,
}

/// The settings that the CPU knob wants for one policy: the `performance` governor where
/// it is available, and the `performance` energy preference where the file exists.
pub open spec fn policy_writes(p: PolicyProbe) -> Seq<(Seq<char>, Seq<char>)> {
    let gov = match p.available_governors {
        Some(t) => word_listed(t@, "performance"@),
        None => false,
    };
    (if gov {
        seq![(join_spec(p.dir@, "scaling_governor"@), "performance"@)]
    } else {
        Seq::empty()
    }) + (if p.has_epp {
        seq![(join_spec(p.dir@, "energy_performance_preference"@), "performance"@)]
    } else {
        Seq::empty()
    })
}

/// The settings that the CPU knob wants for each policy, in order.
pub open spec fn cpu_writes(ps: Seq<PolicyProbe>) -> Seq<(Seq<char>, Seq<char>)>
    decreases ps.len(),
{
    if ps.len() == 0 {
        Seq::empty()
    } else {
        cpu_writes(ps.drop_last()) + policy_writes(ps.last())
    }
}

/// Whether the probe's available governors list `performance` as a word.
pub open spec fn offers_performance(p: PolicyProbe) -> bool {
    p.available_governors matches Some(t) && word_listed(t@, "performance"@)
}

/// The write that selects the `performance` governor of policy directory `dir`.
pub open spec fn governor_write(dir: Seq<char>) -> (Seq<char>, Seq<char>) {
    (join_spec(dir, "scaling_governor"@), "performance"@)
}

/// The write that sets the `performance` energy preference of policy directory `dir`.
pub open spec fn epp_write(dir: Seq<char>) -> (Seq<char>, Seq<char>) {
    (join_spec(dir, "energy_performance_preference"@), "performance"@)
}

/// The plan for one policy holds the governor write exactly when the policy offers the
/// `performance` governor, whether or not it has an energy preference file, and the
/// energy preference write exactly when it has that file, whatever its governors; it
/// holds nothing else.
pub proof fn lemma_policy_plan(p: PolicyProbe)
    ensures
        policy_writes(p).contains(governor_write(p.dir@)) <==> offers_performance(p),
        policy_writes(p).contains(epp_write(p.dir@)) <==> p.has_epp,
        forall|k: int|
            0 <= k < policy_writes(p).len() ==> #[trigger] policy_writes(p)[k] == governor_write(
                p.dir@,
            ) || policy_writes(p)[k] == epp_write(p.dir@),
        policy_writes(p).len() == (if offers_performance(p) {
            1int
        } else {
            0int
        }) + (if p.has_epp {
            1int
        } else {
            0int
        }),
        offers_performance(p) ==> policy_writes(p)[0] == governor_write(p.dir@),
{
    let d = p.dir@;
    assert(governor_write(d).0.len() != epp_write(d).0.len()) by {
        reveal_strlit("scaling_governor");
        reveal_strlit("energy_performance_preference");
    }
    let w = policy_writes(p);
    let g = governor_write(d);
    let e = epp_write(d);
    if offers_performance(p) {
        assert(w[0] == g);
    }
    if p.has_epp {
        assert(w[w.len() - 1] == e);
    }
    if w.contains(g) {
        let k = choose|k: int| 0 <= k < w.len() && w[k] == g;
        assert(offers_performance(p));
    }
    if w.contains(e) {
        let k = choose|k: int| 0 <= k < w.len() && w[k] == e;
        assert(p.has_epp);
    }
}

/// The plan for all policies holds, for each policy, its governor write where it offers
/// the `performance` governor and its energy preference write where it has that file.
pub proof fn lemma_cpu_plan(ps: Seq<PolicyProbe>, i: int)
    requires
        0 <= i < ps.len(),
    ensures
        offers_performance(ps[i]) ==> cpu_writes(ps).contains(governor_write(ps[i].dir@)),
        ps[i].has_epp ==> cpu_writes(ps).contains(epp_write(ps[i].dir@)),
    decreases ps.len(),
{
    lemma_policy_plan(ps[i]);
    let pre = ps.drop_last();
    let all = cpu_writes(ps);
    assert(all == cpu_writes(pre) + policy_writes(ps.last()));
    if i < ps.len() - 1 {
        assert(pre[i] == ps[i]);
        lemma_cpu_plan(pre, i);
        let a = cpu_writes(pre);
        if offers_performance(ps[i]) {
            let k = choose|k: int| 0 <= k < a.len() && a[k] == governor_write(ps[i].dir@);
            assert(all[k] == a[k]);
        }
        if ps[i].has_epp {
            let k = choose|k: int| 0 <= k < a.len() && a[k] == epp_write(ps[i].dir@);
            assert(all[k] == a[k]);
        }
    } else {
        let a = cpu_writes(pre);
        let b = policy_writes(ps[i]);
        if offers_performance(ps[i]) {
            let k = choose|k: int| 0 <= k < b.len() && b[k] == governor_write(ps[i].dir@);
            assert(all[a.len() + k] == b[k]);
        }
        if ps[i].has_epp {
            let k = choose|k: int| 0 <= k < b.len() && b[k] == epp_write(ps[i].dir@);
            assert(all[a.len() + k] == b[k]);
        }
    }
}

/// The paths and values of a list of writes.
pub open spec fn write_texts(ws: Seq<PerfWrite>) -> Seq<(Seq<char>, Seq<char>)> {
    ws.map_values(|w: PerfWrite| (w.path@, w.value@))
}

proof fn lemma_write_texts_push(s: Seq<PerfWrite>, x: PerfWrite)
    ensures
        write_texts(s.push(x)) == write_texts(s).push((x.path@, x.value@)),
{
    assert forall|k: int| 0 <= k <= s.len() implies #[trigger] write_texts(s.push(x))[k]
        == write_texts(s).push((x.path@, x.value@))[k] by {
        assert(write_texts(s.push(x))[k] == (s.push(x)[k].path@, s.push(x)[k].value@));
        if k < s.len() {
            assert(write_texts(s)[k] == (s[k].path@, s[k].value@));
        }
    }
    assert(write_texts(s.push(x)) =~= write_texts(s).push((x.path@, x.value@)));
}

/// The knob that puts the CPU into performance mode.
pub struct Cpu;

impl Cpu {
    /// The knob's name.
    pub fn name(&self) -> (r: &'static str)
        ensures
            r@ == "cpu"@,
    {
        "cpu"
    }

    /// The settings that put each of the probed policies into performance mode.
    pub fn perf_writes(&self, policies: &Vec<PolicyProbe>) -> (r: Vec<PerfWrite>)
        ensures
            write_texts(r@) == cpu_writes(policies@),
    {
        let mut writes: Vec<PerfWrite> = Vec::new();
        let n = policies.len();
        let mut i: usize = 0;
        while i < n
            invariant
                i <= n,
                n == policies@.len(),
                write_texts(writes@) == cpu_writes(policies@.take(i as int)),
            decreases n - i,
        {
            let p = &policies[i];
            let ghost before = write_texts(writes@);
            let gov = match &p.available_governors {
                Some(t) => governor_available(t.as_str(), "performance"),
                None => false,
            };
            if gov {
                let ghost w0 = writes@;
                let w = PerfWrite::new(
                    join(p.dir.as_str(), "scaling_governor"),
                    "performance".to_owned(),
                );
                writes.push(w);
                proof {
                    lemma_write_texts_push(w0, w);
                }
            }
            let ghost mid = write_texts(writes@);
            if p.has_epp {
                let ghost w0 = writes@;
                let w = PerfWrite::new(
                    join(p.dir.as_str(), "energy_performance_preference"),
                    "performance".to_owned(),
                );
                writes.push(w);
                proof {
                    lemma_write_texts_push(w0, w);
                }
            }
            proof {
                let t = policies@.take(i + 1);
                assert(t.drop_last() =~= policies@.take(i as int));
                assert(t.last() == *p);
                let pw = policy_writes(*p);
                if gov {
                    if p.has_epp {
                        assert(write_texts(writes@) =~= before + pw);
                    } else {
                        assert(write_texts(writes@) =~= before + pw);
                    }
                } else {
                    assert(write_texts(writes@) =~= before + pw);
                }
            }
            i = i + 1;
        }
        proof {
            assert(policies@.take(n as int) =~= policies@);
        }
        writes
    }
}

/// What an engagement asks for next.
#[derive(Clone, Copy, Debug, PartialEq, Eq, Structural)]
pub enum EngageStep {
    /// Read the file of write `i`, and hand its text to `on_read`.
    Read(usize),
    /// Write the value of write `i` to its file, and hand the outcome to `on_write`.
    Write(usize),
    /// All writes are handled; `into_snapshot` gives what they replaced.
    Done,
}

/// The abstract state of an engagement.
pub struct EngagementView {
    /// The settings to apply, as paths and values.
    pub writes: Seq<(Seq<char>, Seq<char>)>,
    /// The write being handled.
    pub index: int,
    /// The old value of the current file, once it was read and differs from the value.
    pub old: Option<Seq<char>>,
    /// The values replaced so far.
    pub saved: Map<Seq<char>, Seq<char>>,
}

impl EngagementView {
    pub open spec fn wf(self) -> bool {
        &&& 0 <= self.index <= self.writes.len()
        &&& self.old is Some ==> self.index < self.writes.len()
    }

    /// The step that the state asks for.
    pub open spec fn step(self) -> EngageStep {
        if self.old is Some {
            EngageStep::Write(self.index as usize)
        } else if self.index < self.writes.len() {
            EngageStep::Read(self.index as usize)
        } else {
            EngageStep::Done
        }
    }

    /// After the current file was read (`None`: it could not be). A file that already
    /// holds the value, trimmed, or that cannot be read is skipped.
    pub open spec fn after_read(self, current: Option<Seq<char>>) -> EngagementView {
        if self.old is Some || self.index >= self.writes.len() {
            self
        } else {
            match current {
                None => EngagementView { index: self.index + 1, ..self },
                Some(c) => if trimmed(c) == self.writes[self.index].1 {
                    EngagementView { index: self.index + 1, ..self }
                } else {
                    EngagementView { old: Some(trimmed(c)), ..self }
                },
            }
        }
    }

    /// After the value was written (`ok`) or the write failed: a written file's old value
    /// is recorded.
    pub open spec fn after_write(self, ok: bool) -> EngagementView {
        match self.old {
            None => self,
            Some(o) => EngagementView {
                index: self.index + 1,
                old: None,
                saved: if ok {
                    record(self.saved, self.writes[self.index].0, o)
                } else {
                    self.saved
                },
                ..self
            },
        }
    }
}

/// Applies the settings to a model of the files, `fs`, keyed by the text of their paths:
/// each write whose file exists and does not already hold the value (trimmed) is
/// attempted, and where `ok` says it succeeds, the file takes the value and `snap` records
/// its old value, trimmed.
pub open spec fn apply_writes(
    fs: Map<Seq<char>, Seq<char>>,
    snap: Map<Seq<char>, Seq<char>>,
    ws: Seq<(Seq<char>, Seq<char>)>,
    i: int,
    ok: spec_fn(Seq<char>) -> bool,
) -> (Map<Seq<char>, Seq<char>>, Map<Seq<char>, Seq<char>>)
    decreases ws.len() - i,
{
    if i < 0 || i >= ws.len() {
        (fs, snap)
    } else {
        let (p, v) = ws[i];
        if !fs.contains_key(p) || trimmed(fs[p]) == v || !ok(p) {
            apply_writes(fs, snap, ws, i + 1, ok)
        } else {
            apply_writes(fs.insert(p, v), record(snap, p, trimmed(fs[p])), ws, i + 1, ok)
        }
    }
}

/// The files and the snapshot that an engagement reaches when each read is answered
/// from `fs` and each write's outcome from `ok`.
pub open spec fn engagement_run(
    v: EngagementView,
    fs: Map<Seq<char>, Seq<char>>,
    ok: spec_fn(Seq<char>) -> bool,
) -> (Map<Seq<char>, Seq<char>>, Map<Seq<char>, Seq<char>>)
    decreases 2 * (v.writes.len() - v.index) + if v.old is Some {
        0int
    } else {
        1int
    },
    when v.wf()
{
    if v.old is Some {
        let (p, val) = v.writes[v.index];
        engagement_run(
            v.after_write(ok(p)),
            if ok(p) {
                fs.insert(p, val)
            } else {
                fs
            },
            ok,
        )
    } else if v.index < v.writes.len() {
        let p = v.writes[v.index].0;
        engagement_run(
            v.after_read(
                if fs.contains_key(p) {
                    Some(fs[p])
                } else {
                    None
                },
            ),
            fs,
            ok,
        )
    } else {
        (fs, v.saved)
    }
}

proof fn lemma_run_applies(
    v: EngagementView,
    fs: Map<Seq<char>, Seq<char>>,
    ok: spec_fn(Seq<char>) -> bool,
)
    requires
        v.wf(),
        v.old is None,
    ensures
        engagement_run(v, fs, ok) == apply_writes(fs, v.saved, v.writes, v.index, ok),
    decreases v.writes.len() - v.index,
{
    if v.index < v.writes.len() {
        let (p, val) = v.writes[v.index];
        let cur = if fs.contains_key(p) {
            Some(fs[p])
        } else {
            None
        };
        let v2 = v.after_read(cur);
        assert(engagement_run(v, fs, ok) == engagement_run(v2, fs, ok));
        if v2.old is Some {
            let v3 = v2.after_write(ok(p));
            let fs3 = if ok(p) {
                fs.insert(p, val)
            } else {
                fs
            };
            assert(engagement_run(v2, fs, ok) == engagement_run(v3, fs3, ok));
            lemma_run_applies(v3, fs3, ok);
        } else {
            lemma_run_applies(v2, fs, ok);
        }
    }
}

/// Whether a path that the writes name more than once, and whose writes succeed, gets the
/// same value each time, and that value has no surrounding white space.
pub open spec fn consistent_paths(
    ws: Seq<(Seq<char>, Seq<char>)>,
    ok: spec_fn(Seq<char>) -> bool,
) -> bool {
    forall|a: int, b: int|
        0 <= a < b < ws.len() && #[trigger] ws[a].0 == #[trigger] ws[b].0 && ok(ws[a].0)
            ==> ws[a].1 == ws[b].1 && trimmed(ws[b].1) == ws[b].1
}

/// Whether the writes spell each path one way: two paths of the same components are the
/// same text. (The model of the files tells paths apart by their text.)
pub open spec fn spelled_alike(ws: Seq<(Seq<char>, Seq<char>)>) -> bool {
    forall|a: int, b: int|
        0 <= a < ws.len() && 0 <= b < ws.len() && path_parts(#[trigger] ws[a].0) == path_parts(
            #[trigger] ws[b].0,
        ) ==> ws[a].0 == ws[b].0
}

/// Whether every key of `snap` is the path of one of the writes, and its writes succeed.
pub open spec fn keys_written(
    snap: Map<Seq<char>, Seq<char>>,
    ws: Seq<(Seq<char>, Seq<char>)>,
    ok: spec_fn(Seq<char>) -> bool,
) -> bool {
    forall|q: Seq<char>|
        #[trigger] snap.contains_key(q) ==> ok(q) && exists|j: int|
            0 <= j < ws.len() && #[trigger] ws[j].0 == q
}

proof fn lemma_record_is_insert(
    snap: Map<Seq<char>, Seq<char>>,
    ws: Seq<(Seq<char>, Seq<char>)>,
    ok: spec_fn(Seq<char>) -> bool,
    i: int,
    v: Seq<char>,
)
    requires
        0 <= i < ws.len(),
        spelled_alike(ws),
        keys_written(snap, ws, ok),
    ensures
        record(snap, ws[i].0, v) == snap.insert(ws[i].0, v),
{
    if has_path(snap, ws[i].0) {
        let k = path_key(snap, ws[i].0);
        assert(snap.contains_key(k));
        let j = choose|j: int| 0 <= j < ws.len() && #[trigger] ws[j].0 == k;
        assert(path_parts(ws[j].0) == path_parts(ws[i].0));
    }
}

/// Whether the writes from `i` on are each either still to be recorded, or already done:
/// their file holds their value, which has no surrounding white space.
pub open spec fn pending_or_done(
    fs: Map<Seq<char>, Seq<char>>,
    snap: Map<Seq<char>, Seq<char>>,
    ws: Seq<(Seq<char>, Seq<char>)>,
    i: int,
) -> bool {
    forall|k: int|
        i <= k < ws.len() ==> !snap.contains_key(#[trigger] ws[k].0) || (fs.contains_key(ws[k].0)
            && fs[ws[k].0] == ws[k].1 && trimmed(ws[k].1) == ws[k].1)
}

/// Whether `fs` agrees with `fs0` outside the domain of `snap`, and `snap` holds the old
/// values of `fs0`, trimmed.
pub open spec fn restorable(
    fs0: Map<Seq<char>, Seq<char>>,
    fs: Map<Seq<char>, Seq<char>>,
    snap: Map<Seq<char>, Seq<char>>,
) -> bool {
    &&& forall|p: Seq<char>|
        !(#[trigger] snap.contains_key(p)) ==> (fs.contains_key(p) == fs0.contains_key(p) && (
        fs.contains_key(p) ==> fs[p] == fs0[p]))
    &&& forall|p: Seq<char>|
        #[trigger] snap.contains_key(p) ==> (fs0.contains_key(p) && snap[p] == trimmed(fs0[p])
            && fs.contains_key(p))
}

proof fn lemma_restorable_union(
    fs0: Map<Seq<char>, Seq<char>>,
    fs: Map<Seq<char>, Seq<char>>,
    snap: Map<Seq<char>, Seq<char>>,
)
    requires
        restorable(fs0, fs, snap),
    ensures
        fs.union_prefer_right(snap) == fs0.union_prefer_right(snap),
{
    let a = fs.union_prefer_right(snap);
    let b = fs0.union_prefer_right(snap);
    assert forall|p: Seq<char>| #[trigger] a.contains_key(p) <==> b.contains_key(p) by {
        if !snap.contains_key(p) {
            assert(fs.contains_key(p) == fs0.contains_key(p));
        }
    }
    assert forall|p: Seq<char>| a.contains_key(p) implies #[trigger] a[p] == b[p] by {
        if !snap.contains_key(p) {
            assert(fs[p] == fs0[p]);
        }
    }
    assert(a =~= b);
}

proof fn lemma_apply_restores(
    fs0: Map<Seq<char>, Seq<char>>,
    fs: Map<Seq<char>, Seq<char>>,
    snap: Map<Seq<char>, Seq<char>>,
    ws: Seq<(Seq<char>, Seq<char>)>,
    i: int,
    ok: spec_fn(Seq<char>) -> bool,
)
    requires
        0 <= i <= ws.len(),
        consistent_paths(ws, ok),
        spelled_alike(ws),
        keys_written(snap, ws, ok),
        restorable(fs0, fs, snap),
        pending_or_done(fs, snap, ws, i),
    ensures
        ({
            let (fs1, snap1) = apply_writes(fs, snap, ws, i, ok);
            restorable(fs0, fs1, snap1)
        }),
    decreases ws.len() - i,
{
    if i < ws.len() {
        let (p, v) = ws[i];
        if !fs.contains_key(p) || trimmed(fs[p]) == v || !ok(p) {
            lemma_apply_restores(fs0, fs, snap, ws, i + 1, ok);
        } else {
            assert(!snap.contains_key(ws[i].0));
            let fs2 = fs.insert(p, v);
            let snap2 = snap.insert(p, trimmed(fs[p]));
            lemma_record_is_insert(snap, ws, ok, i, trimmed(fs[p]));
            assert forall|q: Seq<char>| #[trigger] snap2.contains_key(q) implies ok(q) && exists|
                j: int,
            | 0 <= j < ws.len() && #[trigger] ws[j].0 == q by {
                if q == p {
                    assert(ws[i].0 == q);
                }
            }
            assert forall|k: int| i + 1 <= k < ws.len() implies (!snap2.contains_key(
                #[trigger] ws[k].0,
            ) || (fs2.contains_key(ws[k].0) && fs2[ws[k].0] == ws[k].1 && trimmed(ws[k].1)
                == ws[k].1)) by {
                if ws[k].0 == ws[i].0 {
                    assert(ok(ws[i].0));
                    assert(ws[i].1 == ws[k].1 && trimmed(ws[k].1) == ws[k].1);
                } else {
                    assert(!snap.contains_key(ws[k].0) || (fs.contains_key(ws[k].0)
                        && fs[ws[k].0] == ws[k].1 && trimmed(ws[k].1) == ws[k].1));
                }
            }
            assert(fs[p] == fs0[p]);
            assert forall|q: Seq<char>| #[trigger] snap2.contains_key(q) implies (fs0.contains_key(
                q,
            ) && snap2[q] == trimmed(fs0[q]) && fs2.contains_key(q)) by {
                if q != p {
                    assert(snap.contains_key(q));
                }
            }
            assert forall|q: Seq<char>| !(#[trigger] snap2.contains_key(q)) implies (
            fs2.contains_key(q) == fs0.contains_key(q) && (fs2.contains_key(q) ==> fs2[q]
                == fs0[q])) by {
                assert(!snap.contains_key(q));
            }
            lemma_apply_restores(fs0, fs2, snap2, ws, i + 1, ok);
        }
    }
}

/// Restoring undoes an engagement: whatever the files held and whichever writes
/// succeeded, once an engagement has run from an empty snapshot, writing the snapshot back
/// leaves every file as it was, except that a changed file gets back its old text without
/// surrounding white space. A path may be named more than once: its writes fail, or it
/// gets the same value each time and that value has no surrounding white space. Each path
/// is spelled one way.
pub proof fn lemma_restore_undoes_engage(
    fs0: Map<Seq<char>, Seq<char>>,
    ws: Seq<(Seq<char>, Seq<char>)>,
    ok: spec_fn(Seq<char>) -> bool,
)
    requires
        consistent_paths(ws, ok),
        spelled_alike(ws),
    ensures
        ({
            let start = EngagementView {
                writes: ws,
                index: 0,
                old: None,
                saved: Map::empty(),
            };
            let (fs1, snap) = engagement_run(start, fs0, ok);
            &&& fs1.union_prefer_right(snap) == fs0.union_prefer_right(snap)
            &&& forall|p: Seq<char>|
                snap.contains_key(p) ==> fs0.contains_key(p) && snap[p] == trimmed(fs0[p])
        }),
{
    let start = EngagementView { writes: ws, index: 0, old: None, saved: Map::empty() };
    lemma_run_applies(start, fs0, ok);
    lemma_apply_restores(fs0, fs0, Map::empty(), ws, 0, ok);
    let (fs1, snap) = apply_writes(fs0, Map::empty(), ws, 0, ok);
    lemma_restorable_union(fs0, fs1, snap);
}

/// Whether the file of `w` is missing or already holds its value, white space aside:
/// an engagement leaves it alone.
pub open spec fn settled(fs: Map<Seq<char>, Seq<char>>, w: (Seq<char>, Seq<char>)) -> bool {
    !fs.contains_key(w.0) || trimmed(fs[w.0]) == w.1
}

/// Every write succeeds.
pub open spec fn all_succeed() -> spec_fn(Seq<char>) -> bool {
    |p: Seq<char>| true
}

proof fn lemma_apply_settles(
    fs: Map<Seq<char>, Seq<char>>,
    snap: Map<Seq<char>, Seq<char>>,
    ws: Seq<(Seq<char>, Seq<char>)>,
    i: int,
)
    requires
        0 <= i <= ws.len(),
        consistent_paths(ws, all_succeed()),
        forall|k: int| 0 <= k < ws.len() ==> trimmed(#[trigger] ws[k].1) == ws[k].1,
        forall|k: int| 0 <= k < i ==> settled(fs, #[trigger] ws[k]),
    ensures
        forall|k: int|
            0 <= k < ws.len() ==> settled(apply_writes(fs, snap, ws, i, all_succeed()).0, #[trigger] ws[k]),
    decreases ws.len() - i,
{
    if i < ws.len() {
        let (p, v) = ws[i];
        if !fs.contains_key(p) || trimmed(fs[p]) == v {
            assert(settled(fs, ws[i]));
            lemma_apply_settles(fs, snap, ws, i + 1);
        } else {
            let fs2 = fs.insert(p, v);
            assert(all_succeed()(p));
            assert forall|k: int| 0 <= k < i + 1 implies settled(fs2, #[trigger] ws[k]) by {
                if ws[k].0 == p {
                    if k < i {
                        assert(ws[k].1 == ws[i].1);
                    }
                    assert(trimmed(ws[k].1) == ws[k].1);
                } else {
                    assert(settled(fs, ws[k]));
                }
            }
            lemma_apply_settles(fs2, record(snap, p, trimmed(fs[p])), ws, i + 1);
        }
    }
}

proof fn lemma_apply_settled_noop(
    fs: Map<Seq<char>, Seq<char>>,
    snap: Map<Seq<char>, Seq<char>>,
    ws: Seq<(Seq<char>, Seq<char>)>,
    i: int,
    ok: spec_fn(Seq<char>) -> bool,
)
    requires
        0 <= i <= ws.len(),
        forall|k: int| i <= k < ws.len() ==> settled(fs, #[trigger] ws[k]),
    ensures
        apply_writes(fs, snap, ws, i, ok) == (fs, snap),
    decreases ws.len() - i,
{
    if i < ws.len() {
        assert(settled(fs, ws[i]));
        lemma_apply_settled_noop(fs, snap, ws, i + 1, ok);
    }
}

/// Engaging twice changes nothing the second time: once an engagement in which every
/// write succeeded has run, a second engagement of the same settings on the files as it
/// left them writes no file and records nothing. Each value has no surrounding white
/// space, and a path named more than once gets the same value each time.
pub proof fn lemma_engage_twice_is_idle(
    fs0: Map<Seq<char>, Seq<char>>,
    ws: Seq<(Seq<char>, Seq<char>)>,
    ok: spec_fn(Seq<char>) -> bool,
)
    requires
        consistent_paths(ws, all_succeed()),
        forall|k: int| 0 <= k < ws.len() ==> trimmed(#[trigger] ws[k].1) == ws[k].1,
    ensures
        ({
            let start = EngagementView {
                writes: ws,
                index: 0,
                old: None,
                saved: Map::empty(),
            };
            let fs1 = engagement_run(start, fs0, all_succeed()).0;
            engagement_run(start, fs1, ok) == (fs1, Map::<Seq<char>, Seq<char>>::empty())
        }),
{
    let start = EngagementView { writes: ws, index: 0, old: None, saved: Map::empty() };
    lemma_run_applies(start, fs0, all_succeed());
    lemma_apply_settles(fs0, Map::empty(), ws, 0);
    let fs1 = apply_writes(fs0, Map::empty(), ws, 0, all_succeed()).0;
    lemma_run_applies(start, fs1, ok);
    lemma_apply_settled_noop(fs1, Map::empty(), ws, 0, ok);
}

/// Applies a list of settings one by one, recording what each replaced. The caller does
/// the reading and writing that each step asks for and hands the outcome back.
pub struct Engagement {
    writes: Vec<PerfWrite>,
    index: usize,
    old: Option<String>,
    saved: Snapshot,
}

impl View for Engagement {
    type V = EngagementView;

    closed spec fn view(&self) -> EngagementView {
        EngagementView {
            writes: write_texts(self.writes@),
            index: self.index as int,
            old: match self.old {
                Some(o) => Some(o@),
                None => None,
            },
            saved: self.saved@,
        }
    }
}

impl Engagement {
    pub closed spec fn wf(&self) -> bool {
        &&& self@.wf()
        &&& self.saved.wf()
    }

    /// An engagement of `writes` that adds to `saved`, and its first step.
    pub fn new(saved: Snapshot, writes: Vec<PerfWrite>) -> (r: (Engagement, EngageStep))
        requires
            saved.wf(),
        ensures
            r.0.wf(),
            r.0@ == (EngagementView {
                writes: write_texts(writes@),
                index: 0,
                old: None,
                saved: saved@,
            }),
            r.1 == r.0@.step(),
    {
        let e = Engagement { writes, index: 0, old: None, saved };
        let step = if e.writes.len() > 0 {
            EngageStep::Read(0)
        } else {
            EngageStep::Done
        };
        (e, step)
    }

    /// The settings being applied.
    pub fn writes(&self) -> (r: &Vec<PerfWrite>)
        ensures
            write_texts(r@) == self@.writes,
    {
        &self.writes
    }

    /// Takes in the text of the current write's file (`None` when it could not be read).
    pub fn on_read(&mut self, current: Option<&str>) -> (r: EngageStep)
        requires
            old(self).wf(),
        ensures
            final(self).wf(),
            final(self)@ == old(self)@.after_read(
                match current {
                    Some(c) => Some(c@),
                    None => None,
                },
            ),
            r == final(self)@.step(),
    {
        if self.old.is_some() || self.index >= self.writes.len() {
            return self.current_step();
        }
        match current {
            None => {
                self.index = self.index + 1;
            },
            Some(c) => {
                let t = trim(c);
                if same_text(t, self.writes[self.index].value.as_str()) {
                    self.index = self.index + 1;
                } else {
                    self.old = Some(t.to_owned());
                }
            },
        }
        self.current_step()
    }

    /// Takes in whether the value was written to the current write's file.
    pub fn on_write(&mut self, ok: bool) -> (r: EngageStep)
        requires
            old(self).wf(),
        ensures
            final(self).wf(),
            final(self)@ == old(self)@.after_write(ok),
            r == final(self)@.step(),
    {
        assert(write_texts(self.writes@).len() == self.writes@.len());
        assert(self.old is Some ==> self.index < self.writes@.len());
        let n = self.writes.len();
        let i = self.index;
        match self.old.take() {
            None => {},
            Some(o) => {
                assert(i < n);
                if ok {
                    let path = self.writes[i].path.clone();
                    self.saved.insert(path, o);
                }
                self.index = i + 1;
            },
        }
        self.current_step()
    }

    fn current_step(&self) -> (r: EngageStep)
        requires
            self@.wf(),
        ensures
            r == self@.step(),
    {
        if self.old.is_some() {
            EngageStep::Write(self.index)
        } else if self.index < self.writes.len() {
            EngageStep::Read(self.index)
        } else {
            EngageStep::Done
        }
    }

    /// The values replaced: those recorded before and those of the writes made here.
    pub fn into_snapshot(self) -> (s: Snapshot)
        requires
            self.wf(),
        ensures
            s.wf(),
            s@ == self@.saved,
    {
        self.saved
    }
}

} // verus!
