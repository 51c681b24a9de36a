use crate::text::{
    chars_of, lemma_split_on_step, lossy, parse_u32, parse_unsigned_spec, seq_starts_with,
    split_on, string_of, trim, trim_bounds, trimmed, utf8_lossy,
};
use vstd::prelude::*;
use vstd::slice::*;

verus! {

/// A byte as `u8::to_ascii_lowercase` gives it: ASCII capitals become small letters.
pub open spec fn ascii_lower(b: u8) -> u8 {
    if 65 <= b <= 90 {
        (b + 32) as u8
    } else {
        b
    }
}

/// The bytes of `.exe`.
pub open spec fn exe_suffix() -> Seq<u8> {
    seq![46u8, 101u8, 120u8, 101u8]
}

/// Whether `name` ends in `.exe`, ignoring ASCII case.
pub open spec fn is_exe_spec(name: Seq<u8>) -> bool {
    &&& name.len() >= 4
    &&& forall|k: int|
        0 <= k < 4 ==> ascii_lower(#[trigger] name[name.len() - 4 + k]) == ascii_lower(
            exe_suffix()[k],
        )
}

/// A byte lower-cased as `u8::to_ascii_lowercase` does it.
pub fn lower_byte(b: u8) -> (r: u8)
    ensures
        r == ascii_lower(b),
{
    if 65 <= b && b <= 90 {
        b + 32
    } else {
        b
    }
}

/// Whether `name` ends in `.exe` in any ASCII case.
pub fn is_exe(name: &[u8]) -> (r: bool)
    ensures
        r == is_exe_spec(name@),
{
    let n = name.len();
    if n < 4 {
        return false;
    }
    let suffix: [u8; 4] = [46u8, 101u8, 120u8, 101u8];
    assert(suffix@ =~= exe_suffix());
    let mut k: usize = 0;
    while k < 4
        invariant
            k <= 4,
            n == name@.len(),
            n >= 4,
            suffix@ == exe_suffix(),
            forall|j: int|
                0 <= j < k ==> ascii_lower(#[trigger] name@[n - 4 + j]) == ascii_lower(
                    exe_suffix()[j],
                ),
        decreases 4 - k,
    {
        if lower_byte(name[n - 4 + k]) != lower_byte(suffix[k]) {
            return false;
        }
        k = k + 1;
    }
    true
}

/// Whether `b` separates the parts of a path, on Unix (`/`) or on Windows (`\`).
pub open spec fn is_sep(b: u8) -> bool {
    b == 47 || b == 92
}

/// The index of the last separator in `p`, or -1 when there is none.
pub open spec fn last_sep(p: Seq<u8>) -> int
    decreases p.len(),
{
    if p.len() == 0 {
        -1
    } else if is_sep(p.last()) {
        p.len() - 1
    } else {
        last_sep(p.drop_last())
    }
}

/// What follows the last separator of `p`, or all of `p` when it has none.
pub open spec fn basename_spec(p: Seq<u8>) -> Seq<u8> {
    p.subrange(last_sep(p) + 1, p.len() as int)
}

pub proof fn lemma_last_sep(p: Seq<u8>)
    ensures
        -1 <= last_sep(p) < p.len(),
        last_sep(p) >= 0 ==> is_sep(p[last_sep(p)]),
        forall|j: int| last_sep(p) < j < p.len() ==> !is_sep(#[trigger] p[j]),
    decreases p.len(),
{
    if p.len() > 0 && !is_sep(p.last()) {
        let d = p.drop_last();
        lemma_last_sep(d);
        assert forall|j: int| last_sep(p) < j < p.len() implies !is_sep(#[trigger] p[j]) by {
            if j < p.len() - 1 {
                assert(p[j] == d[j]);
            }
        }
    }
}

/// Where the base name of `p` starts: one past its last separator.
fn basename_start(p: &[u8]) -> (r: usize)
    ensures
        r == last_sep(p@) + 1,
{
    let mut k = p.len();
    assert(p@.take(k as int) =~= p@);
    while k > 0 && !(p[k - 1] == 47 || p[k - 1] == 92)
        invariant
            k <= p@.len(),
            last_sep(p@) == last_sep(p@.take(k as int)),
        decreases k,
    {
        proof {
            let t = p@.take(k as int);
            assert(t.drop_last() =~= p@.take(k - 1));
        }
        k = k - 1;
    }
    proof {
        let t = p@.take(k as int);
        if k > 0 {
            assert(t.last() == p@[k - 1]);
        }
    }
    k
}

/// The last part of a path, after its last `/` or `\`.
pub fn basename(path: &[u8]) -> (r: &[u8])
    ensures
        r@ == basename_spec(path@),
{
    proof {
        lemma_last_sep(path@);
    }
    let s = basename_start(path);
    slice_subrange(path, s, path.len())
}

/// The non-empty base names of `args`, in order.
pub open spec fn name_bases(args: Seq<Seq<u8>>) -> Seq<Seq<u8>>
    decreases args.len(),
{
    if args.len() == 0 {
        Seq::empty()
    } else {
        let r = name_bases(args.drop_last());
        let b = basename_spec(args.last());
        if b.len() > 0 {
            r.push(b)
        } else {
            r
        }
    }
}

/// The first of `names` that ends in `.exe`.
pub open spec fn first_exe(names: Seq<Seq<u8>>) -> Option<Seq<u8>>
    decreases names.len(),
{
    if names.len() == 0 {
        None
    } else {
        match first_exe(names.drop_last()) {
            Some(x) => Some(x),
            None => if is_exe_spec(names.last()) {
                Some(names.last())
            } else {
                None
            },
        }
    }
}

/// The name that a command line gives a process: among the base names of its
/// NUL-separated arguments, the first that ends in `.exe`, else the first non-empty one.
pub open spec fn chosen_name(cmdline: Seq<u8>) -> Option<Seq<u8>> {
    let bases = name_bases(split_on(cmdline, 0u8));
    match first_exe(bases) {
        Some(b) => Some(b),
        None => if bases.len() > 0 {
            Some(bases[0])
        } else {
            None
        },
    }
}

proof fn lemma_name_bases_first(args: Seq<Seq<u8>>)
    ensures
        name_bases(args).len() <= args.len(),
        name_bases(args).len() > 0 ==> name_bases(args.drop_last()).len() == 0 ==> name_bases(
            args,
        )[0] == basename_spec(args.last()),
    decreases args.len(),
{
    if args.len() > 0 {
        lemma_name_bases_first(args.drop_last());
    }
}

/// Takes in the argument `cmd[a..e]`: records its base name as the first one when no base
/// name was seen yet, and as the `.exe` name when it is the first of those.
fn take_argument(
    cmd: &[u8],
    a: usize,
    e: usize,
    fallback: Option<(usize, usize)>,
    found: Option<(usize, usize)>,
    Ghost(done): Ghost<Seq<Seq<u8>>>,
) -> (r: (Option<(usize, usize)>, Option<(usize, usize)>))
    requires
        a <= e <= cmd@.len(),
        fallback matches Some((x, y)) ==> (x <= y <= cmd@.len() && name_bases(done).len() > 0
            && cmd@.subrange(x as int, y as int) == name_bases(done)[0]),
        fallback is None ==> name_bases(done).len() == 0,
        found matches Some((x, y)) ==> (x <= y <= cmd@.len() && first_exe(name_bases(done))
            == Some(cmd@.subrange(x as int, y as int))),
        found is None ==> first_exe(name_bases(done)) is None,
    ensures
        ({
            let d = done.push(cmd@.subrange(a as int, e as int));
            &&& r.0 matches Some((x, y)) ==> (x <= y <= cmd@.len() && name_bases(d).len() > 0
                && cmd@.subrange(x as int, y as int) == name_bases(d)[0])
            &&& r.0 is None ==> name_bases(d).len() == 0
            &&& r.1 matches Some((x, y)) ==> (x <= y <= cmd@.len() && first_exe(name_bases(d))
                == Some(cmd@.subrange(x as int, y as int)))
            &&& r.1 is None ==> first_exe(name_bases(d)) is None
        }),
{
    let ghost d = done.push(cmd@.subrange(a as int, e as int));
    assert(d.drop_last() =~= done);
    let arg = slice_subrange(cmd, a, e);
    let s = basename_start(arg);
    proof {
        lemma_last_sep(arg@);
        lemma_name_bases_first(d);
    }
    let x = a + s;
    assert(cmd@.subrange(x as int, e as int) =~= basename_spec(arg@));
    if x == e {
        return (fallback, found);
    }
    let ghost bases = name_bases(d);
    assert(bases =~= name_bases(done).push(basename_spec(arg@)));
    assert(bases.drop_last() =~= name_bases(done));
    assert(bases.last() == cmd@.subrange(x as int, e as int));
    assert(name_bases(done).len() > 0 ==> bases[0] == name_bases(done)[0]);
    let new_fallback = match fallback {
        Some(f) => Some(f),
        None => Some((x, e)),
    };
    let base = slice_subrange(cmd, x, e);
    let new_found = match found {
        Some(f) => Some(f),
        None => if is_exe(base) {
            Some((x, e))
        } else {
            None
        },
    };
    (new_fallback, new_found)
}

/// The name of a process, from the bytes of its `/proc/<pid>/cmdline`: the base name of the
/// first argument that ends in `.exe`, else of the first argument with a non-empty base
/// name, decoded as UTF-8 with replacement characters; `None` when there is none.
pub fn select_name(cmdline: &[u8]) -> (r: Option<String>)
    ensures
        chosen_name(cmdline@) is None ==> r is None,
        chosen_name(cmdline@) matches Some(b) ==> (r matches Some(s) && s@ == utf8_lossy(b)),
{
    let n = cmdline.len();
    let mut start: usize = 0;
    let mut fallback: Option<(usize, usize)> = None;
    let mut found: Option<(usize, usize)> = None;
    let ghost mut done: Seq<Seq<u8>> = Seq::empty();
    proof {
        assert(cmdline@.take(0) =~= Seq::<u8>::empty());
        assert(cmdline@.subrange(0, 0) =~= Seq::<u8>::empty());
        assert(split_on(cmdline@.take(0), 0u8) =~= done.push(cmdline@.subrange(0, 0)));
    }
    let mut i: usize = 0;
    while i < n
        invariant
            start <= i <= n,
            n == cmdline@.len(),
            split_on(cmdline@.take(i as int), 0u8) == done.push(
                cmdline@.subrange(start as int, i as int),
            ),
            fallback matches Some((x, y)) ==> (x <= y <= cmdline@.len() && name_bases(done).len()
                > 0 && cmdline@.subrange(x as int, y as int) == name_bases(done)[0]),
            fallback is None ==> name_bases(done).len() == 0,
            found matches Some((x, y)) ==> (x <= y <= cmdline@.len() && first_exe(
                name_bases(done),
            ) == Some(cmdline@.subrange(x as int, y as int))),
            found is None ==> first_exe(name_bases(done)) is None,
        decreases n - i,
    {
        proof {
            lemma_split_on_step(cmdline@, 0u8, done, start as int, i as int);
        }
        if cmdline[i] == 0 {
            let r = take_argument(cmdline, start, i, fallback, found, Ghost(done));
            fallback = r.0;
            found = r.1;
            proof {
                done = done.push(cmdline@.subrange(start as int, i as int));
            }
            start = i + 1;
        }
        i = i + 1;
    }
    let r = take_argument(cmdline, start, n, fallback, found, Ghost(done));
    proof {
        assert(cmdline@.take(n as int) =~= cmdline@);
    }
    let pick = match r.1 {
        Some(f) => Some(f),
        None => r.0,
    };
    match pick {
        Some((x, y)) => Some(lossy(slice_subrange(cmdline, x, y))),
        None => None,
    }
}

/// `s` with each NUL character replaced by a space.
pub open spec fn nul_to_space(s: Seq<char>) -> Seq<char> {
    s.map_values(|c: char| if c == '\0' { ' ' } else { c })
}

/// The command line of a process as text, from the bytes of its `/proc/<pid>/cmdline`:
/// decoded as UTF-8 with replacement characters, NULs turned into spaces, trimmed;
/// `None` when nothing is left.
pub open spec fn cmdline_text_spec(cmdline: Seq<u8>) -> Option<Seq<char>> {
    let t = trimmed(nul_to_space(utf8_lossy(cmdline)));
    if t.len() == 0 {
        None
    } else {
        Some(t)
    }
}

/// The command line of a process as text; see `cmdline_text_spec`.
pub fn cmdline_text(cmdline: &[u8]) -> (r: Option<String>)
    ensures
        match r {
            Some(s) => cmdline_text_spec(cmdline@) == Some(s@),
            None => cmdline_text_spec(cmdline@) is None,
        },
{
    let text = lossy(cmdline);
    let cs = chars_of(text.as_str());
    let mut out: Vec<char> = Vec::new();
    let n = cs.len();
    let mut i: usize = 0;
    while i < n
        invariant
            i <= n,
            n == cs@.len(),
            cs@ == utf8_lossy(cmdline@),
            out@ == nul_to_space(cs@).take(i as int),
        decreases n - i,
    {
        let c = cs[i];
        if c == '\0' {
            out.push(' ');
        } else {
            out.push(c);
        }
        proof {
            assert(out@ =~= nul_to_space(cs@).take(i + 1));
        }
        i = i + 1;
    }
    assert(out@ =~= nul_to_space(cs@));
    let (a, b) = trim_bounds(&out);
    if a == b {
        return None;
    }
    let piece = vstd::slice::slice_subrange(out.as_slice(), a, b);
    Some(string_of(piece))
}

/// The first of `lines` that begins with `prefix`.
pub open spec fn first_with_prefix(lines: Seq<Seq<char>>, prefix: Seq<char>) -> Option<Seq<char>>
    decreases lines.len(),
{
    if lines.len() == 0 {
        None
    } else {
        match first_with_prefix(lines.drop_last(), prefix) {
            Some(l) => Some(l),
            None => if seq_starts_with(lines.last(), prefix) {
                Some(lines.last())
            } else {
                None
            },
        }
    }
}

proof fn lemma_first_with_prefix(lines: Seq<Seq<char>>, prefix: Seq<char>)
    ensures
        first_with_prefix(lines, prefix) matches Some(l) ==> seq_starts_with(l, prefix),
    decreases lines.len(),
{
    if lines.len() > 0 {
        lemma_first_with_prefix(lines.drop_last(), prefix);
    }
}

/// The parent pid that a `/proc/<pid>/status` text gives: the first line that begins with
/// `PPid:`, read as a `u32` after that label, with white space trimmed. The lines are the
/// pieces between newlines; a `\r` that `str::lines` would drop is white space that the
/// trim removes.
pub open spec fn ppid_spec(status: Seq<char>) -> Option<u32> {
    match first_with_prefix(split_on(status, '\n'), "PPid:"@) {
        Some(line) => match parse_unsigned_spec(
            trimmed(line.subrange(5, line.len() as int)),
            u32::MAX as nat,
        ) {
            Some(v) => Some(v as u32),
            None => None,
        },
        None => None,
    }
}

fn piece_starts_with(cs: &Vec<char>, a: usize, e: usize, p: &Vec<char>) -> (r: bool)
    requires
        a <= e <= cs@.len(),
    ensures
        r == seq_starts_with(cs@.subrange(a as int, e as int), p@),
{
    let m = p.len();
    if m > e - a {
        return false;
    }
    let mut j: usize = 0;
    while j < m
        invariant
            j <= m,
            m == p@.len(),
            a + m <= e <= cs@.len(),
            forall|k: int| 0 <= k < j ==> cs@[a + k] == p@[k],
        decreases m - j,
    {
        if cs[a + j] != p[j] {
            assert(cs@.subrange(a as int, e as int).subrange(0, m as int)[j as int] != p@[j as int]);
            return false;
        }
        j = j + 1;
    }
    assert(cs@.subrange(a as int, e as int).subrange(0, m as int) =~= p@);
    true
}

fn note_line(
    cs: &Vec<char>,
    a: usize,
    e: usize,
    label: &Vec<char>,
    found: Option<(usize, usize)>,
    Ghost(done): Ghost<Seq<Seq<char>>>,
) -> (r: Option<(usize, usize)>)
    requires
        a <= e <= cs@.len(),
        label@ == "PPid:"@,
        found matches Some((x, y)) ==> (x <= y <= cs@.len() && first_with_prefix(done, "PPid:"@)
            == Some(cs@.subrange(x as int, y as int))),
        found is None ==> first_with_prefix(done, "PPid:"@) is None,
    ensures
        ({
            let d = done.push(cs@.subrange(a as int, e as int));
            &&& r matches Some((x, y)) ==> (x <= y <= cs@.len() && first_with_prefix(d, "PPid:"@)
                == Some(cs@.subrange(x as int, y as int)))
            &&& r is None ==> first_with_prefix(d, "PPid:"@) is None
        }),
{
    let ghost d = done.push(cs@.subrange(a as int, e as int));
    assert(d.drop_last() =~= done);
    match found {
        Some(f) => Some(f),
        None => if piece_starts_with(cs, a, e, label) {
            Some((a, e))
        } else {
            None
        },
    }
}

/// The parent pid in the text of `/proc/<pid>/status`; see `ppid_spec`.
pub fn parse_ppid(status: &str) -> (r: Option<u32>)
    ensures
        r == ppid_spec(status@),
{
    let cs = chars_of(status);
    let label = chars_of("PPid:");
    let n = cs.len();
    let mut start: usize = 0;
    let ghost mut done: Seq<Seq<char>> = Seq::empty();
    proof {
        assert(cs@.take(0) =~= Seq::<char>::empty());
        assert(cs@.subrange(0, 0) =~= Seq::<char>::empty());
        assert(split_on(cs@.take(0), '\n') =~= done.push(cs@.subrange(0, 0)));
    }
    let mut found: Option<(usize, usize)> = None;
    let mut i: usize = 0;
    while i < n
        invariant
            start <= i <= n,
            n == cs@.len(),
            cs@ == status@,
            label@ == "PPid:"@,
            split_on(cs@.take(i as int), '\n') == done.push(cs@.subrange(start as int, i as int)),
            found matches Some((x, y)) ==> (x <= y <= cs@.len() && first_with_prefix(
                done,
                "PPid:"@,
            ) == Some(cs@.subrange(x as int, y as int))),
            found is None ==> first_with_prefix(done, "PPid:"@) is None,
        decreases n - i,
    {
        proof {
            lemma_split_on_step(cs@, '\n', done, start as int, i as int);
        }
        if cs[i] == '\n' {
            found = note_line(&cs, start, i, &label, found, Ghost(done));
            proof {
                done = done.push(cs@.subrange(start as int, i as int));
            }
            start = i + 1;
        }
        i = i + 1;
    }
    found = note_line(&cs, start, n, &label, found, Ghost(done));
    proof {
        assert(cs@.take(n as int) =~= cs@);
    }
    proof {
        lemma_first_with_prefix(split_on(cs@, '\n'), "PPid:"@);
        reveal_strlit("PPid:");
    }
    match found {
        Some((x, y)) => {
            let rest = status.substring_char(x + 5, y);
            proof {
                assert(rest@ =~= cs@.subrange(x as int, y as int).subrange(5, (y - x) as int));
            }
            parse_u32(trim(rest))
        },
        None => None,
    }
}

} // verus!
