use crate::text::{contains, lossy, lowercase, seq_contains, to_lower, utf8_lossy};
use vstd::prelude::*;

verus! {

/// Whether the output of `scxctl get` says that no sched_ext scheduler runs: decoded as
/// UTF-8 with replacement characters and lower-cased, it holds
/// `no scx scheduler running`.
pub fn reports_idle(stdout: &[u8]) -> (r: bool)
    ensures
        r == seq_contains(lowercase(utf8_lossy(stdout@)), "no scx scheduler running"@),
{
    let text = lossy(stdout);
    let lower = to_lower(text.as_str());
    contains(lower.as_str(), "no scx scheduler running")
}

} // verus!
