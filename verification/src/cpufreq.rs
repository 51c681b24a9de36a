use crate::config::texts;
use crate::text::{
    chars_of, parse_u64, parse_unsigned_spec, seq_starts_with, starts_with, trim, trimmed,
};
use vstd::prelude::*;

verus! {

broadcast use vstd::seq_lib::group_to_multiset_ensures;

/// The order of two texts character by character, as `str` and file names of valid UTF-8
/// compare: a proper prefix comes first.
pub open spec fn lex_le(a: Seq<char>, b: Seq<char>) -> bool
    decreases a.len(),
{
    if a.len() == 0 {
        true
    } else if b.len() == 0 {
        false
    } else if a[0] != b[0] {
        a[0] < b[0]
    } else {
        lex_le(a.drop_first(), b.drop_first())
    }
}

pub proof fn lemma_lex_total(a: Seq<char>, b: Seq<char>)
    ensures
        lex_le(a, b) || lex_le(b, a),
    decreases a.len(),
{
    if a.len() > 0 && b.len() > 0 && a[0] == b[0] {
        lemma_lex_total(a.drop_first(), b.drop_first());
    }
}

pub proof fn lemma_lex_transitive(a: Seq<char>, b: Seq<char>, c: Seq<char>)
    requires
        lex_le(a, b),
        lex_le(b, c),
    ensures
        lex_le(a, c),
    decreases a.len(),
{
    if a.len() > 0 && b.len() > 0 && c.len() > 0 && a[0] == b[0] && b[0] == c[0] {
        lemma_lex_transitive(a.drop_first(), b.drop_first(), c.drop_first());
    }
}

/// Whether `s` is in order.
pub open spec fn lex_sorted(s: Seq<Seq<char>>) -> bool {
    forall|i: int, j: int| 0 <= i < j < s.len() ==> lex_le(#[trigger] s[i], #[trigger] s[j])
}

/// Whether `a` comes no later than `b`.
pub fn text_le(a: &str, b: &str) -> (r: bool)
    ensures
        r == lex_le(a@, b@),
{
    let x = chars_of(a);
    let y = chars_of(b);
    let mut i: usize = 0;
    proof {
        assert(x@.subrange(0, x@.len() as int) =~= x@);
        assert(y@.subrange(0, y@.len() as int) =~= y@);
    }
    while i < x.len() && i < y.len() && x[i] == y[i]
        invariant
            i <= x@.len(),
            i <= y@.len(),
            lex_le(a@, b@) == lex_le(x@.subrange(i as int, x@.len() as int), y@.subrange(
                i as int,
                y@.len() as int,
            )),
        decreases x@.len() - i,
    {
        proof {
            let xs = x@.subrange(i as int, x@.len() as int);
            let ys = y@.subrange(i as int, y@.len() as int);
            assert(xs.drop_first() =~= x@.subrange(i + 1, x@.len() as int));
            assert(ys.drop_first() =~= y@.subrange(i + 1, y@.len() as int));
        }
        i = i + 1;
    }
    if i == x.len() {
        return true;
    }
    if i == y.len() {
        return false;
    }
    x[i] < y[i]
}

/// The cpufreq policy directories among directory entry names: those that begin with
/// `policy`, in order.
pub open spec fn policy_names(names: Seq<Seq<char>>) -> Seq<Seq<char>> {
    names.filter(|n: Seq<char>| seq_starts_with(n, "policy"@))
}

proof fn lemma_texts_insert(s: Seq<String>, j: int, x: String)
    requires
        0 <= j <= s.len(),
    ensures
        texts(s.insert(j, x)) == texts(s).insert(j, x@),
{
    assert forall|k: int| 0 <= k <= s.len() implies #[trigger] texts(s.insert(j, x))[k] == texts(
        s,
    ).insert(j, x@)[k] by {
        assert(texts(s.insert(j, x))[k] == s.insert(j, x)[k]@);
        if k < j {
            assert(texts(s)[k] == s[k]@);
        } else if k > j {
            assert(texts(s)[k - 1] == s[k - 1]@);
        }
    }
    assert(texts(s.insert(j, x)) =~= texts(s).insert(j, x@));
}

/// The names of the cpufreq policy directories among `names`, sorted as paths sort.
pub fn policies(names: &Vec<String>) -> (r: Vec<String>)
    ensures
        lex_sorted(texts(r@)),
        texts(r@).to_multiset() == policy_names(texts(names@)).to_multiset(),
{
    let mut r: Vec<String> = Vec::new();
    let n = names.len();
    let mut i: usize = 0;
    while i < n
        invariant
            i <= n,
            n == names@.len(),
            lex_sorted(texts(r@)),
            texts(r@).to_multiset() == policy_names(texts(names@.take(i as int))).to_multiset(),
        decreases n - i,
    {
        let ghost before = texts(names@.take(i as int));
        let ghost after = texts(names@.take(i + 1));
        proof {
            assert(after =~= before.push(names@[i as int]@));
            assert(after.drop_last() =~= before);
            reveal(Seq::filter);
        }
        let name = &names[i];
        if starts_with(name.as_str(), "policy") {
            let m = r.len();
            let mut j: usize = 0;
            while j < m && text_le(r[j].as_str(), name.as_str())
                invariant
                    j <= m,
                    m == r@.len(),
                    forall|k: int| 0 <= k < j ==> lex_le(#[trigger] texts(r@)[k], name@),
                decreases m - j,
            {
                j = j + 1;
            }
            let ghost old_r = r@;
            proof {
                if j < m {
                    lemma_lex_total(texts(r@)[j as int], name@);
                }
                assert forall|k: int| j <= k < m implies lex_le(name@, #[trigger] texts(old_r)[k]) by {
                    if k > j {
                        lemma_lex_transitive(name@, texts(old_r)[j as int], texts(old_r)[k]);
                    }
                }
            }
            r.insert(j, name.clone());
            proof {
                let x = r@[j as int];
                lemma_texts_insert(old_r, j as int, x);
                let t = texts(r@);
                let t0 = texts(old_r);
                assert(t == t0.insert(j as int, name@));
                assert forall|a: int, b: int| 0 <= a < b < t.len() implies lex_le(
                    #[trigger] t[a],
                    #[trigger] t[b],
                ) by {
                    if a == j {
                        assert(t[b] == t0[b - 1]);
                    } else if b == j {
                        assert(t[a] == t0[a]);
                    } else {
                        let a0 = if a < j { a } else { a - 1 };
                        let b0 = if b < j { b } else { b - 1 };
                        assert(t[a] == t0[a0]);
                        assert(t[b] == t0[b0]);
                    }
                }
                vstd::seq_lib::to_multiset_insert(t0, j as int, name@);
            }
        }
        i = i + 1;
    }
    proof {
        assert(names@.take(n as int) =~= names@);
    }
    r
}

/// A frequency in kHz as a cpufreq file holds it: a `u64` with white space around it.
pub open spec fn khz_spec(raw: Seq<char>) -> Option<u64> {
    match parse_unsigned_spec(trimmed(raw), u64::MAX as nat) {
        Some(v) => Some(v as u64),
        None => None,
    }
}

/// Reads a frequency in kHz from the text of a cpufreq file.
pub fn read_khz(raw: &str) -> (r: Option<u64>)
    ensures
        r == khz_spec(raw@),
{
    parse_u64(trim(raw))
}

} // verus!
