use crate::text::{chars_of, lemma_split_on_step, matches_at, split_on};
use vstd::prelude::*;

verus! {

/// Lexicographic order on sequences, built on a strict order `less` of their items: at the
/// first place where they differ the smaller item comes first, and a proper prefix comes
/// before the longer sequence.
pub open spec fn lex_less<A>(a: Seq<A>, b: Seq<A>, less: spec_fn(A, A) -> bool) -> bool
    decreases a.len(),
{
    if a.len() == 0 {
        b.len() > 0
    } else if b.len() == 0 {
        false
    } else if a[0] == b[0] {
        lex_less(a.drop_first(), b.drop_first(), less)
    } else {
        less(a[0], b[0])
    }
}

/// `less` is a strict total order: irreflexive, transitive, and any two distinct items are
/// comparable.
pub open spec fn strict_total<A>(less: spec_fn(A, A) -> bool) -> bool {
    &&& forall|x: A| !#[trigger] less(x, x)
    &&& forall|x: A, y: A, z: A| #[trigger] less(x, y) && #[trigger] less(y, z) ==> less(x, z)
    &&& forall|x: A, y: A| x != y ==> #[trigger] less(x, y) || #[trigger] less(y, x)
}

proof fn lemma_lex_irreflexive<A>(a: Seq<A>, less: spec_fn(A, A) -> bool)
    ensures
        !lex_less(a, a, less),
    decreases a.len(),
{
    if a.len() > 0 {
        lemma_lex_irreflexive(a.drop_first(), less);
    }
}

proof fn lemma_lex_transitive<A>(a: Seq<A>, b: Seq<A>, c: Seq<A>, less: spec_fn(A, A) -> bool)
    requires
        strict_total(less),
        lex_less(a, b, less),
        lex_less(b, c, less),
    ensures
        lex_less(a, c, less),
    decreases a.len(),
{
    if a.len() > 0 && c.len() > 0 {
        if a[0] == b[0] && b[0] == c[0] {
            lemma_lex_transitive(a.drop_first(), b.drop_first(), c.drop_first(), less);
        } else if a[0] != b[0] && b[0] != c[0] {
            assert(less(a[0], b[0]) && less(b[0], c[0]));
            assert(less(a[0], c[0]));
            if a[0] == c[0] {
                assert(less(a[0], a[0]));
            }
        }
    }
}

proof fn lemma_lex_total<A>(a: Seq<A>, b: Seq<A>, less: spec_fn(A, A) -> bool)
    requires
        strict_total(less),
        a != b,
    ensures
        lex_less(a, b, less) || lex_less(b, a, less),
    decreases a.len(),
{
    if a.len() == 0 {
        assert(b.len() > 0) by {
            if b.len() == 0 {
                assert(a =~= b);
            }
        }
    } else if b.len() > 0 {
        if a[0] == b[0] {
            assert(a.drop_first() != b.drop_first()) by {
                if a.drop_first() == b.drop_first() {
                    assert(a =~= seq![a[0]] + a.drop_first());
                    assert(b =~= seq![b[0]] + b.drop_first());
                }
            }
            lemma_lex_total(a.drop_first(), b.drop_first(), less);
        } else {
            assert(less(a[0], b[0]) || less(b[0], a[0]));
        }
    }
}

/// On sequences that agree on their first `i` items, the order is decided by what follows.
proof fn lemma_lex_skip<A>(a: Seq<A>, b: Seq<A>, i: int, less: spec_fn(A, A) -> bool)
    requires
        0 <= i <= a.len(),
        i <= b.len(),
        forall|k: int| 0 <= k < i ==> a[k] == b[k],
    ensures
        lex_less(a, b, less) == lex_less(
            a.subrange(i, a.len() as int),
            b.subrange(i, b.len() as int),
            less,
        ),
    decreases i,
{
    if i == 0 {
        assert(a.subrange(0, a.len() as int) =~= a);
        assert(b.subrange(0, b.len() as int) =~= b);
    } else {
        assert(a[0] == b[0]);
        lemma_lex_skip(a.drop_first(), b.drop_first(), i - 1, less);
        assert(a.drop_first().subrange(i - 1, a.len() - 1) =~= a.subrange(i, a.len() as int));
        assert(b.drop_first().subrange(i - 1, b.len() - 1) =~= b.subrange(i, b.len() as int));
    }
}

/// Characters ordered by their code points, which is also the order of their UTF-8 bytes.
pub open spec fn char_less() -> spec_fn(char, char) -> bool {
    |x: char, y: char| x < y
}

/// Text ordered character by character.
pub open spec fn text_less(a: Seq<char>, b: Seq<char>) -> bool {
    lex_less(a, b, char_less())
}

/// A path component as `(kind, name)`: kind 0 is the root `/`, 1 a leading `.`, 2 `..`,
/// and 3 a name, which only kind 3 carries. The kinds are numbered in the order in which
/// `std::path::Component` ranks them.
pub open spec fn part_less() -> spec_fn((u8, Seq<char>), (u8, Seq<char>)) -> bool {
    |x: (u8, Seq<char>), y: (u8, Seq<char>)| x.0 < y.0 || (x.0 == y.0 && text_less(x.1, y.1))
}

proof fn lemma_char_less_total()
    ensures
        strict_total(char_less()),
{
}

proof fn lemma_part_less_total()
    ensures
        strict_total(part_less()),
{
    lemma_char_less_total();
    let l = part_less();
    assert forall|x: (u8, Seq<char>)| !#[trigger] l(x, x) by {
        lemma_lex_irreflexive(x.1, char_less());
    }
    assert forall|x: (u8, Seq<char>), y: (u8, Seq<char>), z: (u8, Seq<char>)|
        #[trigger] l(x, y) && #[trigger] l(y, z) implies l(x, z) by {
        if x.0 == y.0 && y.0 == z.0 {
            lemma_lex_transitive(x.1, y.1, z.1, char_less());
        }
    }
    assert forall|x: (u8, Seq<char>), y: (u8, Seq<char>)| x != y implies #[trigger] l(x, y)
        || #[trigger] l(y, x) by {
        if x.0 == y.0 {
            assert(x.1 != y.1);
            lemma_lex_total(x.1, y.1, char_less());
        }
    }
}

/// A piece between separators, as a component: `..` is kind 2, anything else a name.
pub open spec fn named_part(p: Seq<char>) -> (u8, Seq<char>) {
    if p == seq!['.', '.'] {
        (2u8, Seq::empty())
    } else {
        (3u8, p)
    }
}

/// Whether a piece between separators is a component at all: empty pieces and `.` are not.
pub open spec fn kept_piece(p: Seq<char>) -> bool {
    p.len() > 0 && p != seq!['.']
}

/// The components that the pieces between separators give, in order.
pub open spec fn kept_parts(pieces: Seq<Seq<char>>) -> Seq<(u8, Seq<char>)>
    decreases pieces.len(),
{
    if pieces.len() == 0 {
        Seq::empty()
    } else {
        let r = kept_parts(pieces.drop_last());
        if kept_piece(pieces.last()) {
            r.push(named_part(pieces.last()))
        } else {
            r
        }
    }
}

/// The component that the start of a path gives: the root for a leading `/`, and a `.`
/// that stands alone at the start.
pub open spec fn lead_part(s: Seq<char>) -> Seq<(u8, Seq<char>)> {
    if s.len() > 0 && s[0] == '/' {
        seq![(0u8, Seq::empty())]
    } else if s.len() > 0 && s[0] == '.' && (s.len() == 1 || s[1] == '/') {
        seq![(1u8, Seq::empty())]
    } else {
        Seq::empty()
    }
}

/// The components of a path, as `Path::components` gives them on Unix.
pub open spec fn path_parts(s: Seq<char>) -> Seq<(u8, Seq<char>)> {
    lead_part(s) + kept_parts(split_on(s, '/'))
}

/// The order in which paths are kept: by their components, as `Path` orders them. Two
/// spellings of the same components (`/a/b`, `/a//b`, `/a/b/`) are the same path, as
/// `Path` compares them.
pub open spec fn path_before(a: Seq<char>, b: Seq<char>) -> bool {
    lex_less(path_parts(a), path_parts(b), part_less())
}

/// `path_before` is a strict total order on paths, with paths of the same components
/// taken as one.
pub proof fn lemma_path_before_order(a: Seq<char>, b: Seq<char>, c: Seq<char>)
    ensures
        !path_before(a, a),
        path_before(a, b) && path_before(b, c) ==> path_before(a, c),
        path_parts(a) != path_parts(b) ==> path_before(a, b) || path_before(b, a),
        path_before(a, b) ==> !path_before(b, a) && path_parts(a) != path_parts(b),
{
    lemma_part_less_total();
    let (pa, pb, pc) = (path_parts(a), path_parts(b), path_parts(c));
    lemma_lex_irreflexive(pa, part_less());
    lemma_lex_irreflexive(pb, part_less());
    if path_before(a, b) && path_before(b, c) {
        lemma_lex_transitive(pa, pb, pc, part_less());
    }
    if pa != pb {
        lemma_lex_total(pa, pb, part_less());
    }
    if path_before(a, b) && path_before(b, a) {
        lemma_lex_transitive(pa, pb, pa, part_less());
    }
}

/// A list of components, each as its kind and the characters of its name.
pub open spec fn parts_view(v: Seq<(u8, Vec<char>)>) -> Seq<(u8, Seq<char>)> {
    v.map_values(|x: (u8, Vec<char>)| (x.0, x.1@))
}

/// Whether two components are the same.
fn same_part(x: &(u8, Vec<char>), y: &(u8, Vec<char>)) -> (r: bool)
    ensures
        r == ((x.0, x.1@) == (y.0, y.1@)),
{
    if x.0 != y.0 || x.1.len() != y.1.len() {
        return false;
    }
    let r = matches_at(&x.1, &y.1, 0);
    assert(x.1@.subrange(0, y.1@.len() as int) =~= x.1@);
    r
}

/// Whether `a` comes before `b` character by character.
fn text_first(a: &Vec<char>, b: &Vec<char>) -> (r: bool)
    ensures
        r == text_less(a@, b@),
{
    let n = a.len();
    let m = b.len();
    let mut i: usize = 0;
    while i < n && i < m && a[i] == b[i]
        invariant
            i <= n,
            i <= m,
            n == a@.len(),
            m == b@.len(),
            forall|k: int| 0 <= k < i ==> a@[k] == b@[k],
        decreases n - i,
    {
        i = i + 1;
    }
    proof {
        lemma_lex_skip(a@, b@, i as int, char_less());
    }
    let ghost sa = a@.subrange(i as int, n as int);
    let ghost sb = b@.subrange(i as int, m as int);
    if i == n {
        m > i
    } else if i == m {
        false
    } else {
        assert(sa[0] == a@[i as int] && sb[0] == b@[i as int]);
        a[i] < b[i]
    }
}

/// Whether the component list `a` comes before `b`.
fn parts_first(a: &Vec<(u8, Vec<char>)>, b: &Vec<(u8, Vec<char>)>) -> (r: bool)
    ensures
        r == lex_less(parts_view(a@), parts_view(b@), part_less()),
{
    let ghost va = parts_view(a@);
    let ghost vb = parts_view(b@);
    let n = a.len();
    let m = b.len();
    let mut i: usize = 0;
    while i < n && i < m && same_part(&a[i], &b[i])
        invariant
            i <= n,
            i <= m,
            n == a@.len(),
            m == b@.len(),
            va == parts_view(a@),
            vb == parts_view(b@),
            forall|k: int| 0 <= k < i ==> va[k] == vb[k],
        decreases n - i,
    {
        i = i + 1;
    }
    proof {
        lemma_lex_skip(va, vb, i as int, part_less());
    }
    let ghost sa = va.subrange(i as int, n as int);
    let ghost sb = vb.subrange(i as int, m as int);
    if i == n {
        m > i
    } else if i == m {
        false
    } else {
        assert(sa[0] == va[i as int] && sb[0] == vb[i as int]);
        assert(va[i as int] == (a@[i as int].0, a@[i as int].1@));
        assert(vb[i as int] == (b@[i as int].0, b@[i as int].1@));
        a[i].0 < b[i].0 || (a[i].0 == b[i].0 && text_first(&a[i].1, &b[i].1))
    }
}

/// Whether a piece between separators is a component.
fn is_kept(p: &Vec<char>) -> (r: bool)
    ensures
        r == kept_piece(p@),
{
    if p.len() == 0 {
        false
    } else if p.len() == 1 && p[0] == '.' {
        assert(p@ =~= seq!['.']);
        false
    } else {
        assert(p@ != seq!['.']) by {
            if p@ == seq!['.'] {
                assert(p@.len() == 1 && p@[0] == '.');
            }
        }
        true
    }
}

/// The component that a piece between separators stands for.
fn piece_part(p: Vec<char>) -> (r: (u8, Vec<char>))
    ensures
        (r.0, r.1@) == named_part(p@),
{
    if p.len() == 2 && p[0] == '.' && p[1] == '.' {
        assert(p@ =~= seq!['.', '.']);
        let e: Vec<char> = Vec::new();
        assert(e@ =~= Seq::<char>::empty());
        (2u8, e)
    } else {
        assert(p@ != seq!['.', '.']) by {
            if p@ == seq!['.', '.'] {
                assert(p@.len() == 2 && p@[0] == '.' && p@[1] == '.');
            }
        }
        (3u8, p)
    }
}

proof fn lemma_parts_view_push(v: Seq<(u8, Vec<char>)>, x: (u8, Vec<char>))
    ensures
        parts_view(v.push(x)) == parts_view(v).push((x.0, x.1@)),
{
    assert(parts_view(v.push(x)) =~= parts_view(v).push((x.0, x.1@)));
}

/// The components of the path `s`, as `Path::components` gives them on Unix.
pub fn path_parts_of(s: &str) -> (r: Vec<(u8, Vec<char>)>)
    ensures
        parts_view(r@) == path_parts(s@),
{
    let cs = chars_of(s);
    let n = cs.len();
    let mut out: Vec<(u8, Vec<char>)> = Vec::new();
    if n > 0 && cs[0] == '/' {
        out.push((0u8, Vec::new()));
    } else if n > 0 && cs[0] == '.' && (n == 1 || cs[1] == '/') {
        out.push((1u8, Vec::new()));
    }
    let ghost lead = parts_view(out@);
    assert(lead =~= lead_part(s@));
    let mut cur: Vec<char> = Vec::new();
    let ghost mut done: Seq<Seq<char>> = Seq::empty();
    let ghost mut start: int = 0;
    let mut i: usize = 0;
    assert(cs@.take(0) =~= Seq::<char>::empty());
    assert(cur@ =~= cs@.subrange(0, 0));
    assert(kept_parts(done) =~= Seq::<(u8, Seq<char>)>::empty());
    assert(parts_view(out@) =~= lead + kept_parts(done));
    while i < n
        invariant
            i <= n,
            n == cs@.len(),
            cs@ == s@,
            0 <= start <= i,
            cur@ == cs@.subrange(start, i as int),
            split_on(cs@.take(i as int), '/') == done.push(cur@),
            lead == lead_part(s@),
            parts_view(out@) == lead + kept_parts(done),
        decreases n - i,
    {
        proof {
            lemma_split_on_step(cs@, '/', done, start, i as int);
        }
        if cs[i] == '/' {
            let ghost pv = cur@;
            let piece = cur;
            cur = Vec::new();
            proof {
                assert(done.push(pv).drop_last() =~= done);
            }
            if is_kept(&piece) {
                let part = piece_part(piece);
                proof {
                    lemma_parts_view_push(out@, part);
                }
                out.push(part);
                assert(parts_view(out@) =~= lead + kept_parts(done.push(pv)));
            } else {
                assert(parts_view(out@) =~= lead + kept_parts(done.push(pv)));
            }
            proof {
                done = done.push(pv);
                start = i + 1;
            }
            assert(cur@ =~= cs@.subrange(start, i + 1));
        } else {
            cur.push(cs[i]);
        }
        i = i + 1;
    }
    assert(cs@.take(n as int) =~= cs@);
    let ghost pv = cur@;
    proof {
        assert(done.push(pv).drop_last() =~= done);
    }
    if is_kept(&cur) {
        let part = piece_part(cur);
        proof {
            lemma_parts_view_push(out@, part);
        }
        out.push(part);
        assert(parts_view(out@) =~= lead + kept_parts(done.push(pv)));
    } else {
        assert(parts_view(out@) =~= lead + kept_parts(done.push(pv)));
    }
    out
}

/// Where a path stands against another.
#[derive(Clone, Copy, Debug, PartialEq, Eq, Structural)]
pub enum Placement {
    /// It comes first.
    Before,
    /// It has the same components: it is the same path.
    Same,
    /// It comes after.
    After,
}

/// Where path `a` stands against path `b` in `path_before`.
pub fn path_place(a: &str, b: &str) -> (r: Placement)
    ensures
        (r == Placement::Before) == path_before(a@, b@),
        (r == Placement::Same) == (path_parts(a@) == path_parts(b@)),
        (r == Placement::After) == path_before(b@, a@),
{
    let pa = path_parts_of(a);
    let pb = path_parts_of(b);
    proof {
        lemma_path_before_order(a@, b@, a@);
    }
    if parts_first(&pa, &pb) {
        Placement::Before
    } else if parts_first(&pb, &pa) {
        Placement::After
    } else {
        Placement::Same
    }
}

} // verus!
