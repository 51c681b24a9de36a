use crate::proc::{ascii_lower, lower_byte};
use crate::text::{lowercase, same_text, to_lower};
use vstd::prelude::*;
use vstd::utf8::encode_utf8;

verus! {

/// The words that turn a switch on.
pub open spec fn on_words() -> Seq<Seq<char>> {
    seq!["on"@, "true"@, "1"@, "enable"@]
}

/// The words that turn a switch off.
pub open spec fn off_words() -> Seq<Seq<char>> {
    seq!["off"@, "false"@, "0"@, "disable"@]
}

/// What a lower-cased switch word means: `Ok(true)` for an on-word, `Ok(false)` for an
/// off-word, and otherwise an error that carries the word.
pub open spec fn onoff_spec(lower: Seq<char>) -> Result<bool, Seq<char>> {
    if on_words().contains(lower) {
        Ok(true)
    } else if off_words().contains(lower) {
        Ok(false)
    } else {
        Err(lower)
    }
}

/// The switch words mean what they say: `on`, `true`, `1` and `enable` switch on; `off`,
/// `false`, `0` and `disable` switch off; any other word is refused and handed back.
pub proof fn lemma_switch_words(w: Seq<char>)
    ensures
        (w == "on"@ || w == "true"@ || w == "1"@ || w == "enable"@) ==> onoff_spec(w) == Ok::<
            bool,
            Seq<char>,
        >(true),
        (w == "off"@ || w == "false"@ || w == "0"@ || w == "disable"@) ==> onoff_spec(w) == Ok::<
            bool,
            Seq<char>,
        >(false),
        !(w == "on"@ || w == "true"@ || w == "1"@ || w == "enable"@ || w == "off"@ || w
            == "false"@ || w == "0"@ || w == "disable"@) ==> onoff_spec(w) == Err::<
            bool,
            Seq<char>,
        >(w),
{
    reveal_strlit("on");
    reveal_strlit("true");
    reveal_strlit("1");
    reveal_strlit("enable");
    reveal_strlit("off");
    reveal_strlit("false");
    reveal_strlit("0");
    reveal_strlit("disable");
    let on = on_words();
    let off = off_words();
    assert(on[0] == "on"@ && on[1] == "true"@ && on[2] == "1"@ && on[3] == "enable"@);
    assert(off[0] == "off"@ && off[1] == "false"@ && off[2] == "0"@ && off[3] == "disable"@);
    if on.contains(w) {
        let k = choose|k: int| 0 <= k < on.len() && on[k] == w;
        assert(k == 0 || k == 1 || k == 2 || k == 3);
    }
    if off.contains(w) {
        let k = choose|k: int| 0 <= k < off.len() && off[k] == w;
        assert(k == 0 || k == 1 || k == 2 || k == 3);
    }
    if w == "on"@ || w == "true"@ || w == "1"@ || w == "enable"@ {
        if w == "on"@ { assert(on[0] == w); }
        if w == "true"@ { assert(on[1] == w); }
        if w == "1"@ { assert(on[2] == w); }
        if w == "enable"@ { assert(on[3] == w); }
    }
    if w == "off"@ || w == "false"@ || w == "0"@ || w == "disable"@ {
        if w == "off"@ { assert(off[0] == w); }
        if w == "false"@ { assert(off[1] == w); }
        if w == "0"@ { assert(off[2] == w); }
        if w == "disable"@ { assert(off[3] == w); }
        assert(!on.contains(w)) by {
            if on.contains(w) {
                let k = choose|k: int| 0 <= k < on.len() && on[k] == w;
                assert(on[k].len() != w.len() || on[k][0] != w[0]);
            }
        }
    }
}

fn one_of(s: &str, a: &str, b: &str, c: &str, d: &str) -> (r: bool)
    ensures
        r == seq![a@, b@, c@, d@].contains(s@),
{
    let r = same_text(s, a) || same_text(s, b) || same_text(s, c) || same_text(s, d);
    proof {
        let l = seq![a@, b@, c@, d@];
        if r {
            if s@ == a@ {
                assert(l[0] == s@);
            } else if s@ == b@ {
                assert(l[1] == s@);
            } else if s@ == c@ {
                assert(l[2] == s@);
            } else {
                assert(l[3] == s@);
            }
        }
    }
    r
}

/// What an already lower-cased switch word means; see `onoff_spec`.
pub fn onoff_word(lower: String) -> (r: Result<bool, String>)
    ensures
        match r {
            Ok(b) => onoff_spec(lower@) == Ok::<bool, Seq<char>>(b),
            Err(w) => onoff_spec(lower@) == Err::<bool, Seq<char>>(w@),
        },
{
    if one_of(lower.as_str(), "on", "true", "1", "enable") {
        Ok(true)
    } else if one_of(lower.as_str(), "off", "false", "0", "disable") {
        Ok(false)
    } else {
        Err(lower)
    }
}

/// What a switch word on the command line means, in any case: it is lower-cased, then
/// read as `onoff_word` reads it.
pub fn parse_onoff(value: &str) -> (r: Result<bool, String>)
    ensures
        match r {
            Ok(b) => onoff_spec(lowercase(value@)) == Ok::<bool, Seq<char>>(b),
            Err(w) => onoff_spec(lowercase(value@)) == Err::<bool, Seq<char>>(w@),
        },
{
    onoff_word(to_lower(value))
}

/// A command of the command line.
#[derive(Debug, PartialEq, Eq)]
pub enum Command {
    Status,
    Engage,
    Restore,
    Watch,
    Daemon,
    Cpu,
    /// A word that names no command.
    Unknown(String),
}

/// The words that name commands.
pub open spec fn command_words() -> Seq<Seq<char>> {
    seq!["status"@, "engage"@, "restore"@, "watch"@, "daemon"@, "cpu"@]
}

/// The command that the first argument names; with no argument, `status`. An unknown
/// word is handed back in `Command::Unknown`.
pub fn parse_command(arg: Option<&str>) -> (c: Command)
    ensures
        arg is None ==> c == Command::Status,
        arg matches Some(a) ==> (a@ == "status"@ <==> c == Command::Status),
        arg matches Some(a) ==> (a@ == "engage"@ <==> c == Command::Engage),
        arg matches Some(a) ==> (a@ == "restore"@ <==> c == Command::Restore),
        arg matches Some(a) ==> (a@ == "watch"@ <==> c == Command::Watch),
        arg matches Some(a) ==> (a@ == "daemon"@ <==> c == Command::Daemon),
        arg matches Some(a) ==> (a@ == "cpu"@ <==> c == Command::Cpu),
        arg matches Some(a) ==> (!command_words().contains(a@) <==> c is Unknown),
        c matches Command::Unknown(w) ==> (arg matches Some(a) && w@ == a@),
{
    let a = match arg {
        None => return Command::Status,
        Some(a) => a,
    };
    proof {
        reveal_strlit("status");
        reveal_strlit("engage");
        reveal_strlit("restore");
        reveal_strlit("watch");
        reveal_strlit("daemon");
        reveal_strlit("cpu");
        let w = command_words();
        if w.contains(a@) {
            let k = choose|k: int| 0 <= k < w.len() && w[k] == a@;
            assert(0 <= k < 6);
        }
        assert(w[0] == "status"@ && w[1] == "engage"@ && w[2] == "restore"@ && w[3] == "watch"@
            && w[4] == "daemon"@ && w[5] == "cpu"@);
        assert("status"@[0] != "engage"@[0] && "status"@[0] != "restore"@[0] && "status"@[0]
            != "watch"@[0] && "status"@[0] != "daemon"@[0] && "status"@[0] != "cpu"@[0]);
        assert("engage"@[0] != "restore"@[0] && "engage"@[0] != "watch"@[0] && "engage"@[0]
            != "daemon"@[0] && "engage"@[0] != "cpu"@[0]);
        assert("restore"@[0] != "watch"@[0] && "restore"@[0] != "daemon"@[0] && "restore"@[0]
            != "cpu"@[0]);
        assert("watch"@[0] != "daemon"@[0] && "watch"@[0] != "cpu"@[0]);
        assert("daemon"@[0] != "cpu"@[0]);
    }
    if same_text(a, "status") {
        Command::Status
    } else if same_text(a, "engage") {
        Command::Engage
    } else if same_text(a, "restore") {
        Command::Restore
    } else if same_text(a, "watch") {
        Command::Watch
    } else if same_text(a, "daemon") {
        Command::Daemon
    } else if same_text(a, "cpu") {
        Command::Cpu
    } else {
        Command::Unknown(a.to_owned())
    }
}

/// A control of the `cpu` command.
#[derive(Debug, PartialEq, Eq)]
pub enum CpuControl {
    /// No control named: show both.
    Summary,
    Turbo,
    Freq,
    /// A word that names no control.
    Unknown(String),
}

/// The control that the `cpu` command's argument names; an unknown word is handed back.
pub fn parse_cpu_control(arg: Option<&str>) -> (c: CpuControl)
    ensures
        arg is None ==> c == CpuControl::Summary,
        arg matches Some(a) ==> (a@ == "turbo"@ <==> c == CpuControl::Turbo),
        arg matches Some(a) ==> (a@ == "freq"@ <==> c == CpuControl::Freq),
        arg matches Some(a) ==> (c matches CpuControl::Unknown(w) ==> w@ == a@),
        arg matches Some(a) ==> (a@ != "turbo"@ && a@ != "freq"@ <==> c is Unknown),
{
    proof {
        reveal_strlit("turbo");
        reveal_strlit("freq");
        assert("turbo"@[0] != "freq"@[0]);
    }
    match arg {
        None => CpuControl::Summary,
        Some(a) => if same_text(a, "turbo") {
            CpuControl::Turbo
        } else if same_text(a, "freq") {
            CpuControl::Freq
        } else {
            CpuControl::Unknown(a.to_owned())
        },
    }
}

/// Whether two byte strings are equal when ASCII letters are compared without case, as
/// `eq_ignore_ascii_case` compares them.
pub open spec fn eq_ignore_ascii_case_spec(a: Seq<u8>, b: Seq<u8>) -> bool {
    a.len() == b.len() && forall|i: int|
        0 <= i < a.len() ==> ascii_lower(#[trigger] a[i]) == ascii_lower(b[i])
}

/// Whether the frequency argument asks to reset the ceiling: `reset` in any ASCII case.
pub fn is_reset_word(value: &str) -> (r: bool)
    ensures
        r == eq_ignore_ascii_case_spec(encode_utf8(value@), encode_utf8("reset"@)),
{
    let a = value.as_bytes();
    let b = "reset".as_bytes();
    if a.len() != b.len() {
        return false;
    }
    let n = a.len();
    let mut i: usize = 0;
    while i < n
        invariant
            i <= n,
            n == a@.len(),
            n == b@.len(),
            a@ == encode_utf8(value@),
            b@ == encode_utf8("reset"@),
            forall|k: int| 0 <= k < i ==> ascii_lower(#[trigger] a@[k]) == ascii_lower(b@[k]),
        decreases n - i,
    {
        if lower_byte(a[i]) != lower_byte(b[i]) {
            assert(!eq_ignore_ascii_case_spec(a@, b@)) by {
                assert(ascii_lower(a@[i as int]) != ascii_lower(b@[i as int]));
            }
            return false;
        }
        i = i + 1;
    }
    true
}

} // verus!
