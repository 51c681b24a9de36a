use crate::config::{lemma_texts_push, texts};
use crate::state::{opt_text, State};
use crate::text::{decimal, decimal_text, same_text};
use vstd::prelude::*;

verus! {

/// How output is coloured.
#[derive(Clone, Copy, Debug, PartialEq, Eq, Structural)]
pub enum Mode {
    /// No colour.
    Off,
    /// The sixteen terminal colours.
    Term,
    /// 24-bit colour.
    True,
}

/// The colour codes of a style, in 24-bit and in terminal colours.
pub struct Style {
    pub truec: &'static str,
    pub ansi: &'static str,
}

/// The style of headings.
pub fn head_style() -> (s: Style)
    ensures
        s.truec@ == "38;2;186;172;255"@,
        s.ansi@ == "1;36"@,
{
    Style { truec: "38;2;186;172;255", ansi: "1;36" }
}

/// The style of good news.
pub fn good_style() -> (s: Style)
    ensures
        s.truec@ == "38;2;152;224;178"@,
        s.ansi@ == "32"@,
{
    Style { truec: "38;2;152;224;178", ansi: "32" }
}

/// The style of side remarks.
pub fn dim_style() -> (s: Style)
    ensures
        s.truec@ == "38;2;120;120;138"@,
        s.ansi@ == "2"@,
{
    Style { truec: "38;2;120;120;138", ansi: "2" }
}

/// The colouring mode: none when output is not a terminal or `NO_COLOR` is set; terminal
/// colours when `MINAZUKI_COLOR` is `term`, `ansi`, `terminal` or `16`; 24-bit colour
/// otherwise.
pub open spec fn mode_spec(is_terminal: bool, no_color: bool, color: Option<Seq<char>>) -> Mode {
    if !is_terminal || no_color {
        Mode::Off
    } else {
        match color {
            Some(c) => if c == "term"@ || c == "ansi"@ || c == "terminal"@ || c == "16"@ {
                Mode::Term
            } else {
                Mode::True
            },
            None => Mode::True,
        }
    }
}

/// The colouring mode; see `mode_spec`. `color` is the value of `MINAZUKI_COLOR`, if it
/// is set and is Unicode.
pub fn mode_for(is_terminal: bool, no_color: bool, color: Option<&str>) -> (m: Mode)
    ensures
        m == mode_spec(
            is_terminal,
            no_color,
            match color {
                Some(c) => Some(c@),
                None => None,
            },
        ),
{
    if !is_terminal || no_color {
        return Mode::Off;
    }
    match color {
        Some(c) => if same_text(c, "term") || same_text(c, "ansi") || same_text(c, "terminal")
            || same_text(c, "16") {
            Mode::Term
        } else {
            Mode::True
        },
        None => Mode::True,
    }
}

/// `s` painted with the colour code of the mode: wrapped in the escape sequences that
/// set the colour and reset it, or unchanged when colour is off.
pub open spec fn paint_spec(s: Seq<char>, truec: Seq<char>, ansi: Seq<char>, mode: Mode) -> Seq<
    char,
> {
    match mode {
        Mode::Off => s,
        Mode::Term => "\x1b["@ + ansi + "m"@ + s + "\x1b[0m"@,
        Mode::True => "\x1b["@ + truec + "m"@ + s + "\x1b[0m"@,
    }
}

/// `s` painted in `style`; see `paint_spec`.
pub fn paint(s: &str, style: &Style, mode: Mode) -> (r: String)
    ensures
        r@ == paint_spec(s@, style.truec@, style.ansi@, mode),
{
    let code = match mode {
        Mode::Off => return s.to_owned(),
        Mode::Term => style.ansi,
        Mode::True => style.truec,
    };
    let mut out = "\x1b[".to_owned();
    out.append(code);
    out.append("m");
    out.append(s);
    out.append("\x1b[0m");
    out
}

/// `s` painted as a heading.
pub fn head(s: &str, mode: Mode) -> (r: String)
    ensures
        r@ == paint_spec(s@, "38;2;186;172;255"@, "1;36"@, mode),
{
    paint(s, &head_style(), mode)
}

/// `s` painted as good news.
pub fn good(s: &str, mode: Mode) -> (r: String)
    ensures
        r@ == paint_spec(s@, "38;2;152;224;178"@, "32"@, mode),
{
    paint(s, &good_style(), mode)
}

/// `s` painted as a side remark.
pub fn dim(s: &str, mode: Mode) -> (r: String)
    ensures
        r@ == paint_spec(s@, "38;2;120;120;138"@, "2"@, mode),
{
    paint(s, &dim_style(), mode)
}

pub open spec fn good_spec(s: Seq<char>, mode: Mode) -> Seq<char> {
    paint_spec(s, "38;2;152;224;178"@, "32"@, mode)
}

pub open spec fn dim_spec(s: Seq<char>, mode: Mode) -> Seq<char> {
    paint_spec(s, "38;2;120;120;138"@, "2"@, mode)
}

/// The width of the name column of a status row.
pub const NAME_WIDTH: usize = 31;

/// `name` padded with spaces to `NAME_WIDTH` characters, as `{:<31}` pads it.
pub open spec fn padded(name: Seq<char>) -> Seq<char> {
    if name.len() < NAME_WIDTH {
        name + Seq::new((NAME_WIDTH - name.len()) as nat, |i: int| ' ')
    } else {
        name
    }
}

/// One row of the status listing: the setting's file name, its current value, the value
/// that engaging sets, and how many files share these.
pub open spec fn row_spec(
    name: Seq<char>,
    cur: Seq<char>,
    target: Seq<char>,
    count: nat,
    mode: Mode,
) -> Seq<char> {
    let tag = if count > 1 {
        dim_spec("  \u{d7}"@ + decimal(count), mode)
    } else {
        Seq::empty()
    };
    let body = if cur == target {
        good_spec(cur, mode) + "  "@ + dim_spec("(already set)"@, mode)
    } else {
        dim_spec(cur, mode) + " "@ + dim_spec("\u{2192}"@, mode) + " "@ + good_spec(target, mode)
    };
    "  "@ + padded(name) + " "@ + body + tag
}

/// One row of the status listing; see `row_spec`.
pub fn format_row(name: &str, cur: &str, target: &str, count: usize, mode: Mode) -> (r: String)
    ensures
        r@ == row_spec(name@, cur@, target@, count as nat, mode),
{
    let tag = if count > 1 {
        let mut t = "  \u{d7}".to_owned();
        let digits = decimal_text(count);
        t.append(digits.as_str());
        dim(t.as_str(), mode)
    } else {
        String::new()
    };
    let body = if same_text(cur, target) {
        let mut b = good(cur, mode);
        b.append("  ");
        let d = dim("(already set)", mode);
        b.append(d.as_str());
        b
    } else {
        let mut b = dim(cur, mode);
        b.append(" ");
        let arrow = dim("\u{2192}", mode);
        b.append(arrow.as_str());
        b.append(" ");
        let g = good(target, mode);
        b.append(g.as_str());
        b
    };
    let mut out = "  ".to_owned();
    out.append(name);
    let width = name.unicode_len();
    let mut k = width;
    let ghost base = out@;
    while k < NAME_WIDTH
        invariant
            width <= k <= NAME_WIDTH || (width >= NAME_WIDTH && k == width),
            width == name@.len(),
            out@ == base + Seq::new((k - width) as nat, |i: int| ' '),
        decreases NAME_WIDTH - k,
    {
        let ghost prev = out@;
        out.append(" ");
        proof {
            reveal_strlit(" ");
            assert(out@ =~= base + Seq::new((k + 1 - width) as nat, |i: int| ' '));
        }
        k = k + 1;
    }
    proof {
        if width >= NAME_WIDTH {
            assert(out@ =~= base);
        }
        assert(base =~= "  "@ + name@);
    }
    out.append(" ");
    out.append(body.as_str());
    out.append(tag.as_str());
    proof {
        if count <= 1 {
            assert(tag@ =~= Seq::<char>::empty());
        }
        assert(out@ =~= row_spec(name@, cur@, target@, count as nat, mode));
    }
    out
}

/// A status row before grouping: file name, current value, value to set.
pub type RowKey = (Seq<char>, Seq<char>, Seq<char>);

/// Equal rows gathered, in the order in which each first occurs, with how often it
/// occurs.
pub open spec fn group_rows(rows: Seq<RowKey>) -> Seq<(RowKey, nat)>
    decreases rows.len(),
{
    if rows.len() == 0 {
        Seq::empty()
    } else {
        let g = group_rows(rows.drop_last());
        let x = rows.last();
        if exists|k: int| 0 <= k < g.len() && (#[trigger] g[k]).0 == x {
            let k = choose|k: int| 0 <= k < g.len() && (#[trigger] g[k]).0 == x;
            g.update(k, (x, g[k].1 + 1))
        } else {
            g.push((x, 1))
        }
    }
}

/// The status listing of a set of rows: one line per group of equal rows.
pub open spec fn summary_spec(rows: Seq<RowKey>, mode: Mode) -> Seq<Seq<char>> {
    group_rows(rows).map_values(
        |g: (RowKey, nat)| row_spec(g.0.0, g.0.1, g.0.2, g.1, mode),
    )
}

pub open spec fn row_keys(rows: Seq<(String, String, String)>) -> Seq<RowKey> {
    rows.map_values(|r: (String, String, String)| (r.0@, r.1@, r.2@))
}

pub open spec fn group_view(g: Seq<(String, String, String, usize)>) -> Seq<(RowKey, nat)> {
    g.map_values(|x: (String, String, String, usize)| ((x.0@, x.1@, x.2@), x.3 as nat))
}

fn same_row(g: &(String, String, String, usize), r: &(String, String, String)) -> (b: bool)
    ensures
        b == ((g.0@, g.1@, g.2@) == (r.0@, r.1@, r.2@)),
{
    same_text(g.0.as_str(), r.0.as_str()) && same_text(g.1.as_str(), r.1.as_str()) && same_text(
        g.2.as_str(),
        r.2.as_str(),
    )
}

/// The status rows grouped and formatted; see `summary_spec`.
pub fn summarize(rows: &Vec<(String, String, String)>, mode: Mode) -> (r: Vec<String>)
    ensures
        texts(r@) == summary_spec(row_keys(rows@), mode),
{
    let mut groups: Vec<(String, String, String, usize)> = Vec::new();
    let n = rows.len();
    let mut i: usize = 0;
    while i < n
        invariant
            i <= n,
            n == rows@.len(),
            group_view(groups@) == group_rows(row_keys(rows@.take(i as int))),
            forall|a: int, b: int|
                0 <= a < b < groups@.len() ==> group_view(groups@)[a].0 != group_view(
                    groups@,
                )[b].0,
            forall|a: int| 0 <= a < groups@.len() ==> (#[trigger] groups@[a]).3 <= i,
        decreases n - i,
    {
        let ghost keys = row_keys(rows@.take(i + 1));
        let ghost g0 = group_view(groups@);
        let ghost x = (rows@[i as int].0@, rows@[i as int].1@, rows@[i as int].2@);
        proof {
            assert(keys.drop_last() =~= row_keys(rows@.take(i as int)));
            assert(keys.last() == x);
        }
        let m = groups.len();
        let mut k: usize = 0;
        while k < m && !same_row(&groups[k], &rows[i])
            invariant
                k <= m,
                m == groups@.len(),
                g0 == group_view(groups@),
                i < n,
                n == rows@.len(),
                x == (rows@[i as int].0@, rows@[i as int].1@, rows@[i as int].2@),
                forall|j: int| 0 <= j < k ==> g0[j].0 != x,
            decreases m - k,
        {
            k = k + 1;
        }
        let hit = k < m;
        if hit {
            proof {
                assert(g0[k as int].0 == x);
                let kk = choose|j: int| 0 <= j < g0.len() && (#[trigger] g0[j]).0 == x;
                assert(kk == k as int);
            }
            let ghost old_groups = groups@;
            let (a, b, c, cnt) = groups.remove(k);
            groups.insert(k, (a, b, c, cnt + 1));
            proof {
                assert(groups@ =~= old_groups.update(k as int, (a, b, c, (cnt + 1) as usize)));
                assert(group_view(groups@) =~= g0.update(k as int, (x, g0[k as int].1 + 1)));
            }
        } else {
            proof {
                assert(!(exists|j: int| 0 <= j < g0.len() && (#[trigger] g0[j]).0 == x));
            }
            let a = rows[i].0.clone();
            let b = rows[i].1.clone();
            let c = rows[i].2.clone();
            let ghost old_groups = groups@;
            groups.push((a, b, c, 1));
            proof {
                assert(group_view(groups@) =~= g0.push((x, 1)));
            }
        }
        i = i + 1;
    }
    proof {
        assert(rows@.take(n as int) =~= rows@);
    }
    let mut out: Vec<String> = Vec::new();
    let m = groups.len();
    let mut j: usize = 0;
    while j < m
        invariant
            j <= m,
            m == groups@.len(),
            group_view(groups@) == group_rows(row_keys(rows@)),
            texts(out@) == summary_spec(row_keys(rows@), mode).take(j as int),
        decreases m - j,
    {
        let line = format_row(
            groups[j].0.as_str(),
            groups[j].1.as_str(),
            groups[j].2.as_str(),
            groups[j].3,
            mode,
        );
        let ghost prev = out@;
        out.push(line);
        proof {
            let want = summary_spec(row_keys(rows@), mode);
            assert(group_view(groups@)[j as int] == ((groups@[j as int].0@, groups@[j as int].1@, groups@[j as int].2@), groups@[j as int].3 as nat));
            assert(want[j as int] == line@);
            lemma_texts_push(prev, line);
            assert(want.take(j + 1) =~= want.take(j as int).push(want[j as int]));
        }
        j = j + 1;
    }
    proof {
        assert(summary_spec(row_keys(rows@), mode).take(m as int) =~= summary_spec(
            row_keys(rows@),
            mode,
        ));
    }
    out
}

/// The status line for the engaged state: `● engaged`, the game and the scheduler when the
/// record names them; `○ idle` when there is no record.
pub open spec fn state_line_spec(
    record: Option<(Option<Seq<char>>, Option<Seq<char>>)>,
    mode: Mode,
) -> Seq<char> {
    match record {
        Some((game, scheduler)) => {
            let head = good_spec("\u{25cf}"@, mode) + " "@ + good_spec("engaged"@, mode);
            let with_game = match game {
                Some(g) => head + "  "@ + good_spec(g, mode),
                None => head,
            };
            match scheduler {
                Some(s) => with_game + "  "@ + dim_spec("via "@ + s, mode),
                None => with_game,
            }
        },
        None => dim_spec("\u{25cb}"@, mode) + " "@ + dim_spec("idle"@, mode),
    }
}

/// The engaged line names the recorded game right after `● engaged`, whether or not a
/// scheduler is recorded, and a recorded scheduler comes after it as `via` and its name:
/// the game part does not depend on the scheduler, nor the scheduler part on the game.
pub proof fn lemma_state_line_parts(
    game: Option<Seq<char>>,
    scheduler: Option<Seq<char>>,
    mode: Mode,
)
    ensures
        ({
            let head = good_spec("\u{25cf}"@, mode) + " "@ + good_spec("engaged"@, mode);
            let game_part = match game {
                Some(g) => "  "@ + good_spec(g, mode),
                None => Seq::empty(),
            };
            let sched_part = match scheduler {
                Some(s) => "  "@ + dim_spec("via "@ + s, mode),
                None => Seq::empty(),
            };
            state_line_spec(Some((game, scheduler)), mode) == head + game_part + sched_part
        }),
        game matches Some(g) ==> state_line_spec(Some((game, None)), mode) == good_spec(
            "\u{25cf}"@,
            mode,
        ) + " "@ + good_spec("engaged"@, mode) + "  "@ + good_spec(g, mode),
        state_line_spec(Some((None, None)), mode) == good_spec("\u{25cf}"@, mode) + " "@
            + good_spec("engaged"@, mode),
        state_line_spec(None, mode) == dim_spec("\u{25cb}"@, mode) + " "@ + dim_spec(
            "idle"@,
            mode,
        ),
{
    let head = good_spec("\u{25cf}"@, mode) + " "@ + good_spec("engaged"@, mode);
    assert(head + Seq::<char>::empty() =~= head);
    match game {
        Some(g) => {
            assert(head + ("  "@ + good_spec(g, mode)) =~= head + "  "@ + good_spec(g, mode));
            assert(head + ("  "@ + good_spec(g, mode)) + Seq::<char>::empty() =~= head + "  "@
                + good_spec(g, mode));
            match scheduler {
                Some(s) => {
                    assert(head + ("  "@ + good_spec(g, mode)) + ("  "@ + dim_spec("via "@ + s, mode))
                        =~= head + "  "@ + good_spec(g, mode) + "  "@ + dim_spec("via "@ + s, mode));
                },
                None => {},
            }
        },
        None => {
            match scheduler {
                Some(s) => {
                    assert(head + Seq::<char>::empty() + ("  "@ + dim_spec("via "@ + s, mode))
                        =~= head + "  "@ + dim_spec("via "@ + s, mode));
                },
                None => {
                    assert(head + Seq::<char>::empty() + Seq::<char>::empty() =~= head);
                },
            }
        },
    }
}

/// The status line for the state file's record, if there is one; see `state_line_spec`.
pub fn state_line(record: Option<&State>, mode: Mode) -> (r: String)
    ensures
        r@ == state_line_spec(
            match record {
                Some(st) => Some((opt_text(st.game), opt_text(st.scheduler))),
                None => None,
            },
            mode,
        ),
{
    match record {
        Some(st) => {
            let mut line = good("\u{25cf}", mode);
            line.append(" ");
            let e = good("engaged", mode);
            line.append(e.as_str());
            match &st.game {
                Some(g) => {
                    line.append("  ");
                    let t = good(g.as_str(), mode);
                    line.append(t.as_str());
                },
                None => {},
            }
            match &st.scheduler {
                Some(sched) => {
                    line.append("  ");
                    let mut via = "via ".to_owned();
                    via.append(sched.as_str());
                    let t = dim(via.as_str(), mode);
                    line.append(t.as_str());
                },
                None => {},
            }
            line
        },
        None => {
            let mut line = dim("\u{25cb}", mode);
            line.append(" ");
            let t = dim("idle", mode);
            line.append(t.as_str());
            line
        },
    }
}

} // verus!
