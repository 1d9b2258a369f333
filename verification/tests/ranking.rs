//! Rankings over the store.

use cargo_trend::opts::Opt;
use cargo_trend::store::Db;
use cargo_trend::store::Entry;
use cargo_trend::trend::top_dependent_names;
use cargo_trend::trend::top_n_by_score;
use cargo_trend::trend::top_transitive_names;
use cargo_trend::trend::trend_scores;

fn entry(time: i64, direct: u64, transitive: u64, total: u64) -> Entry {
    Entry {
        time,
        direct_dependents: direct,
        transitive_dependents: transitive,
        total_crates: total,
    }
}

fn scores(s: &[(i128, &str)]) -> Vec<(i128, String)> {
    s.iter().map(|(v, n)| (*v, n.to_string())).collect()
}

#[test]
fn top_n_takes_largest_first() {
    let s = scores(&[(1, "a"), (3, "b"), (2, "c")]);
    assert_eq!(top_n_by_score(&s, 2), vec!["b".to_string(), "c".to_string()]);
}

#[test]
fn top_n_with_more_than_available_returns_all() {
    let s = scores(&[(5, "a"), (7, "b")]);
    assert_eq!(top_n_by_score(&s, 10), vec!["b".to_string(), "a".to_string()]);
}

#[test]
fn top_n_zero_returns_nothing() {
    let s = scores(&[(5, "a")]);
    assert!(top_n_by_score(&s, 0).is_empty());
}

#[test]
fn equal_scores_leave_in_reverse_stable_order() {
    let s = scores(&[(1, "a"), (1, "b"), (1, "c")]);
    assert_eq!(
        top_n_by_score(&s, 3),
        vec!["c".to_string(), "b".to_string(), "a".to_string()]
    );
}

fn ranked_db() -> Db {
    Db {
        update: 300,
        map: vec![
            ("low".to_string(), vec![entry(100, 1, 9, 10)]),
            ("high".to_string(), vec![entry(100, 9, 1, 10)]),
            ("mid".to_string(), vec![entry(100, 5, 5, 10)]),
        ],
    }
}

#[test]
fn top_dependent_uses_newest_direct_counts() {
    let db = ranked_db();
    assert_eq!(
        top_dependent_names(&db, 2),
        vec!["high".to_string(), "mid".to_string()]
    );
}

#[test]
fn top_transitive_uses_newest_transitive_counts() {
    let db = ranked_db();
    assert_eq!(
        top_transitive_names(&db, 2),
        vec!["low".to_string(), "mid".to_string()]
    );
}

#[test]
fn trend_uses_window_start_entry() {
    // Entries on day 0, day 2 and day 4; the window starts at day 3, so
    // the comparison base is the newest entry before day 3.
    let db = Db {
        update: 400000,
        map: vec![(
            "t".to_string(),
            vec![entry(0, 1, 1, 5), entry(180000, 4, 1, 5), entry(360000, 9, 1, 5)],
        )],
    };
    let with_window = trend_scores(&db, Some(3), false);
    assert_eq!(with_window, vec![(5i128, "t".to_string())]);
    let without_window = trend_scores(&db, None, false);
    assert_eq!(without_window, vec![(8i128, "t".to_string())]);
}

#[test]
fn trend_can_be_negative() {
    let db = Db {
        update: 200,
        map: vec![("down".to_string(), vec![entry(100, 9, 0, 5), entry(200, 2, 0, 5)])],
    };
    let s = trend_scores(&db, None, false);
    assert_eq!(s, vec![(-7i128, "down".to_string())]);
}

#[test]
fn option_defaults_match_the_surface() {
    let o = Opt::new();
    assert_eq!(o.x_size, 1200);
    assert_eq!(o.y_size, 800);
    assert_eq!(o.output, "trend.svg");
    assert!(o.crates.is_empty());
    assert!(!o.relative);
    assert!(!o.transitive);
    assert!(o.update.is_none());
    assert!(o.duration.is_none());
}
