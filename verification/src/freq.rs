use crate::cpufreq::{khz_spec, read_khz};
use crate::text::{chars_of, lowercase, string_of, to_lower, trim, trimmed};
use vstd::prelude::*;

verus! {

/// The frequency ceiling that is set, and the one that the hardware allows, in kHz.
pub struct FreqInfo {
    pub max_khz: u64,
    pub hw_max_khz: u64,
}

/// The frequencies of the first cpufreq policy, from the texts of its `scaling_max_freq`
/// and `cpuinfo_max_freq` (`None` where a file could not be read); `None` unless both
/// hold a number.
pub fn info(scaling_max: Option<&str>, cpuinfo_max: Option<&str>) -> (r: Option<FreqInfo>)
    ensures
        match r {
            Some(f) => scaling_max matches Some(a) && cpuinfo_max matches Some(b) && khz_spec(a@)
                == Some(f.max_khz) && khz_spec(b@) == Some(f.hw_max_khz),
            None => !(scaling_max matches Some(a) && cpuinfo_max matches Some(b) && khz_spec(
                a@,
            ) is Some && khz_spec(b@) is Some),
        },
{
    let a = match scaling_max {
        Some(t) => t,
        None => return None,
    };
    let max_khz = match read_khz(a) {
        Some(v) => v,
        None => return None,
    };
    let b = match cpuinfo_max {
        Some(t) => t,
        None => return None,
    };
    let hw_max_khz = match read_khz(b) {
        Some(v) => v,
        None => return None,
    };
    Some(FreqInfo { max_khz, hw_max_khz })
}

/// The unit that a frequency text names by its last letter.
#[derive(Clone, Copy, Debug, PartialEq, Eq, Structural)]
pub enum FreqUnit {
    /// `g`: gigahertz.
    Giga,
    /// `m`: megahertz.
    Mega,
    /// `k`: kilohertz.
    Kilo,
    /// No unit letter: the size of the number decides.
    Bare,
}

/// `s` without a trailing `hz`.
pub open spec fn without_hz(s: Seq<char>) -> Seq<char> {
    if s.len() >= 2 && s[s.len() - 2] == 'h' && s[s.len() - 1] == 'z' {
        s.subrange(0, s.len() - 2)
    } else {
        s
    }
}

/// The number and the unit of a frequency text, as the `freq` command reads them: the
/// text trimmed and lower-cased, without a trailing `hz`, and then without a trailing `g`,
/// `m` or `k`, which names the unit.
pub open spec fn freq_parts(input: Seq<char>) -> (Seq<char>, FreqUnit) {
    let b = without_hz(lowercase(trimmed(input)));
    if b.len() > 0 && b.last() == 'g' {
        (b.drop_last(), FreqUnit::Giga)
    } else if b.len() > 0 && b.last() == 'm' {
        (b.drop_last(), FreqUnit::Mega)
    } else if b.len() > 0 && b.last() == 'k' {
        (b.drop_last(), FreqUnit::Kilo)
    } else {
        (b, FreqUnit::Bare)
    }
}

/// Splits a frequency text into its number and its unit; see `freq_parts`.
pub fn split_freq(input: &str) -> (r: (String, FreqUnit))
    ensures
        (r.0@, r.1) == freq_parts(input@),
{
    let lower = to_lower(trim(input));
    let cs = chars_of(lower.as_str());
    let ghost b = without_hz(cs@);
    let mut end = cs.len();
    if end >= 2 && cs[end - 2] == 'h' && cs[end - 1] == 'z' {
        end = end - 2;
    }
    assert(b =~= cs@.take(end as int));
    let unit = if end > 0 && cs[end - 1] == 'g' {
        FreqUnit::Giga
    } else if end > 0 && cs[end - 1] == 'm' {
        FreqUnit::Mega
    } else if end > 0 && cs[end - 1] == 'k' {
        FreqUnit::Kilo
    } else {
        FreqUnit::Bare
    };
    let keep = match unit {
        FreqUnit::Bare => end,
        _ => end - 1,
    };
    let mut v: Vec<char> = Vec::new();
    let mut i: usize = 0;
    while i < keep
        invariant
            i <= keep,
            keep <= cs@.len(),
            v@ == cs@.take(i as int),
        decreases keep - i,
    {
        v.push(cs[i]);
        i = i + 1;
        assert(v@ =~= cs@.take(i as int));
    }
    proof {
        if unit != FreqUnit::Bare {
            assert(b.last() == cs@[end - 1]);
            assert(v@ =~= b.drop_last());
        } else {
            assert(v@ =~= b);
        }
    }
    (string_of(v.as_slice()), unit)
}

} // verus!
