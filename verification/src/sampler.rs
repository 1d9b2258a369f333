//! History sampling: which commits of the index repository are analyzed.

use vstd::prelude::*;

verus! {

/// Seconds per calendar day (UTC).
pub const DAY_SECONDS: i64 = 86400;

/// The calendar day (UTC) that an epoch-second timestamp falls on.
pub open spec fn spec_day_of(ts: int) -> int {
    ts / 86400
}

/// Day number of a nonnegative epoch-second timestamp.
pub fn day_of(ts: i64) -> (d: i64)
    requires
        0 <= ts,
    ensures
        d == spec_day_of(ts as int),
        0 <= d,
{
    ((ts as u64) / 86400) as i64
}

/// The sampling rule over a walk of commits in increasing time order:
/// keep a commit only if its timestamp is strictly above the high-water
/// mark and its calendar day differs from the day of the previously kept
/// commit (initially the high-water mark itself). This yields at most one
/// sample per day, monotonically advancing.
pub open spec fn spec_select(
    commits: Seq<(i64, String)>,
    last_time: int,
    high_water: int,
) -> Seq<(i64, String)>
    decreases commits.len(),
{
    if commits.len() == 0 {
        Seq::empty()
    } else {
        let c = commits[0];
        if c.0 > high_water && spec_day_of(c.0 as int) != spec_day_of(last_time) {
            seq![c] + spec_select(commits.drop_first(), c.0 as int, high_water)
        } else {
            spec_select(commits.drop_first(), last_time, high_water)
        }
    }
}

/// Select the commits to sample from a history walk (oldest first).
pub fn select_commits(commits: &Vec<(i64, String)>, high_water: i64) -> (kept: Vec<
    (i64, String)>)
    requires
        0 <= high_water,
    ensures
        kept@ == spec_select(commits@, high_water as int, high_water as int),
{
    let mut kept: Vec<(i64, String)> = Vec::new();
    let mut last: i64 = high_water;
    let n = commits.len();
    proof {
        assert(commits@.skip(0) =~= commits@);
    }
    for i in 0..n
        invariant
            n == commits@.len(),
            0 <= high_water,
            0 <= last,
            spec_select(commits@, high_water as int, high_water as int)
                =~= kept@ + spec_select(commits@.skip(i as int), last as int,
                high_water as int),
    {
        let t = commits[i].0;
        proof {
            assert(commits@.skip(i as int)[0] == commits@[i as int]);
            assert(commits@.skip(i as int).drop_first() =~= commits@.skip(i + 1));
        }
        if t > high_water && day_of(t) != day_of(last) {
            kept.push((t, commits[i].1.clone()));
            last = t;
        }
    }
    proof {
        assert(commits@.skip(n as int) =~= Seq::<(i64, String)>::empty());
    }
    kept
}

} // verus!
