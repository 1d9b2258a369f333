//! Commit sampling and day arithmetic.

use cargo_trend::sampler::day_of;
use cargo_trend::sampler::select_commits;

fn commits(ts: &[i64]) -> Vec<(i64, String)> {
    ts.iter()
        .enumerate()
        .map(|(i, t)| (*t, format!("commit{}", i)))
        .collect()
}

fn kept_times(kept: &[(i64, String)]) -> Vec<i64> {
    kept.iter().map(|c| c.0).collect()
}

#[test]
fn day_of_boundaries() {
    assert_eq!(day_of(0), 0);
    assert_eq!(day_of(86399), 0);
    assert_eq!(day_of(86400), 1);
    assert_eq!(day_of(172800), 2);
}

#[test]
fn keeps_first_commit_of_each_new_day() {
    // Day one at 10:00 and 14:00, day two at 09:00.
    let cs = commits(&[122400, 136800, 205200]);
    let kept = select_commits(&cs, 0);
    assert_eq!(kept_times(&kept), vec![122400, 205200]);
    assert_eq!(kept[0].1, "commit0");
    assert_eq!(kept[1].1, "commit2");
}

#[test]
fn rerun_from_a_high_water_mark_skips_its_day() {
    let cs = commits(&[122400, 136800, 205200]);
    let kept = select_commits(&cs, 122400);
    assert_eq!(kept_times(&kept), vec![205200]);
}

#[test]
fn commits_at_or_below_the_mark_are_never_kept() {
    let cs = commits(&[122400, 136800, 205200]);
    let kept = select_commits(&cs, 205200);
    assert!(kept.is_empty());
}

#[test]
fn day_zero_commits_are_skipped_with_a_zero_mark() {
    // The mark's own day is day zero, so only later days qualify.
    let cs = commits(&[10, 86401]);
    let kept = select_commits(&cs, 0);
    assert_eq!(kept_times(&kept), vec![86401]);
}

#[test]
fn one_sample_per_day_over_many_days() {
    let cs = commits(&[86401, 86500, 172801, 172900, 259201]);
    let kept = select_commits(&cs, 0);
    assert_eq!(kept_times(&kept), vec![86401, 172801, 259201]);
}

#[test]
fn empty_history_keeps_nothing() {
    let kept = select_commits(&Vec::new(), 0);
    assert!(kept.is_empty());
}
