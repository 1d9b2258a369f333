//! Closure building and snapshot analysis.

use cargo_trend::cache::ClosureCache;
use cargo_trend::names::NameSet;
use cargo_trend::snapshot::Dep;
use cargo_trend::snapshot::IndexSnapshot;
use cargo_trend::snapshot::Package;
use cargo_trend::snapshot::PackageVersion;
use cargo_trend::store::Db;
use cargo_trend::store::Entry;
use cargo_trend::transitive::gather_transitive;
use cargo_trend::transitive::reconcile_cache;

fn names(ns: &[&str]) -> Vec<String> {
    ns.iter().map(|n| n.to_string()).collect()
}

fn plain_dep(name: &str) -> Dep {
    Dep {
        name: name.to_string(),
        req: "*".to_string(),
        optional: false,
        default_features: true,
        features: Vec::new(),
    }
}

fn package(name: &str, deps: &[&str]) -> Package {
    Package {
        name: name.to_string(),
        versions: vec![PackageVersion {
            version: "1.0.0".to_string(),
            features: Vec::new(),
            deps: deps.iter().map(|d| plain_dep(d)).collect(),
        }],
    }
}

fn entry_of<'a>(db: &'a Db, name: &str) -> Option<&'a Vec<Entry>> {
    db.map.iter().find(|p| p.0 == name).map(|p| &p.1)
}

fn closure_of(snap: &IndexSnapshot, order: &[&str], target: &str) -> Vec<String> {
    let mut cache = ClosureCache::new();
    let mut result = Vec::new();
    let star = "*".to_string();
    let enabled = names(&["default"]);
    for name in order {
        let trace = NameSet::singleton(name.to_string());
        let owned = name.to_string();
        let (tr, lp) = gather_transitive(snap, &owned, &star, &enabled, trace, &mut cache);
        reconcile_cache(&mut cache, &tr, &lp);
        if *name == target {
            result = tr.names.clone();
        }
    }
    result
}

#[test]
fn snapshot_wf_requires_unique_names() {
    let good = IndexSnapshot {
        packages: vec![package("a", &[]), package("b", &[])],
    };
    assert!(good.check_wf());
    let dup = IndexSnapshot {
        packages: vec![package("a", &[]), package("a", &[])],
    };
    assert!(!dup.check_wf());
}

#[test]
fn no_dependencies_means_empty_closure() {
    let snap = IndexSnapshot { packages: vec![package("lone", &[])] };
    let closure = closure_of(&snap, &["lone"], "lone");
    assert!(closure.is_empty());
}

#[test]
fn missing_package_has_empty_closure() {
    let snap = IndexSnapshot { packages: vec![package("a", &["ghost"])] };
    let mut cache = ClosureCache::new();
    let star = "*".to_string();
    let enabled = names(&["default"]);
    let trace = NameSet::singleton("ghost".to_string());
    let name = "ghost".to_string();
    let (tr, lp) = gather_transitive(&snap, &name, &star, &enabled, trace, &mut cache);
    assert!(tr.names.is_empty());
    assert!(lp.names.is_empty());
}

#[test]
fn cycle_closure_is_repaired() {
    // A -> B -> C -> A plus D -> A: D must reach all of A, B and C.
    let snap = IndexSnapshot {
        packages: vec![
            package("a", &["b"]),
            package("b", &["c"]),
            package("c", &["a"]),
            package("d", &["a"]),
        ],
    };
    let closure = closure_of(&snap, &["a", "b", "c", "d"], "d");
    assert!(closure.contains(&"a".to_string()));
    assert!(closure.contains(&"b".to_string()));
    assert!(closure.contains(&"c".to_string()));
}

#[test]
fn cycle_closure_is_repaired_from_inside_the_cycle_first() {
    // Same graph, but the first traversal starts inside the cycle, which
    // leaves truncated cached closures until the repair pass runs.
    let snap = IndexSnapshot {
        packages: vec![
            package("c", &["a"]),
            package("a", &["b"]),
            package("b", &["c"]),
            package("d", &["a"]),
        ],
    };
    let closure = closure_of(&snap, &["c", "a", "b", "d"], "d");
    assert!(closure.contains(&"a".to_string()));
    assert!(closure.contains(&"b".to_string()));
    assert!(closure.contains(&"c".to_string()));
}

#[test]
fn three_package_chain_counts() {
    // a has no deps, b depends on a, c depends on b.
    let snap = IndexSnapshot {
        packages: vec![package("a", &[]), package("b", &["a"]), package("c", &["b"])],
    };
    let mut db = Db::new();
    db.apply_snapshot(&snap, 100).unwrap();
    let a = entry_of(&db, "a").unwrap();
    assert_eq!(a.len(), 1);
    assert_eq!(a[0].direct_dependents, 1);
    assert_eq!(a[0].transitive_dependents, 2);
    assert_eq!(a[0].total_crates, 3);
    assert_eq!(a[0].time, 100);
    let b = entry_of(&db, "b").unwrap();
    assert_eq!(b[0].direct_dependents, 1);
    assert_eq!(b[0].transitive_dependents, 1);
    assert_eq!(b[0].total_crates, 3);
    // c has no dependents and no history, and nothing was recorded for it.
    assert!(entry_of(&db, "c").is_none());
}

#[test]
fn feature_gated_dependency_gets_no_dependents() {
    // x gates optional y behind "extra"; z depends on x with default
    // features only, so y receives nothing.
    let x = Package {
        name: "x".to_string(),
        versions: vec![PackageVersion {
            version: "1.0.0".to_string(),
            features: vec![("extra".to_string(), vec!["y".to_string()])],
            deps: vec![Dep {
                name: "y".to_string(),
                req: "*".to_string(),
                optional: true,
                default_features: true,
                features: Vec::new(),
            }],
        }],
    };
    let snap = IndexSnapshot {
        packages: vec![x, package("y", &[]), package("z", &["x"])],
    };
    let mut db = Db::new();
    db.apply_snapshot(&snap, 100).unwrap();
    assert!(entry_of(&db, "y").is_none());
    let xent = entry_of(&db, "x").unwrap();
    assert_eq!(xent[0].direct_dependents, 1);
}

#[test]
fn analysis_is_idempotent() {
    let snap = IndexSnapshot {
        packages: vec![package("a", &[]), package("b", &["a"])],
    };
    let mut db = Db::new();
    db.apply_snapshot(&snap, 100).unwrap();
    let before = db.map.clone();
    db.apply_snapshot(&snap, 200).unwrap();
    assert_eq!(db.map, before);
}

#[test]
fn changed_counts_append_and_unchanged_do_not() {
    let snap1 = IndexSnapshot {
        packages: vec![package("a", &[]), package("b", &["a"])],
    };
    let snap2 = IndexSnapshot {
        packages: vec![package("a", &[]), package("b", &["a"]), package("c", &["a"])],
    };
    let mut db = Db::new();
    db.record_snapshot(&snap1, 100).unwrap();
    db.record_snapshot(&snap2, 200).unwrap();
    let a = entry_of(&db, "a").unwrap();
    assert_eq!(a.len(), 2);
    assert_eq!(a[0].direct_dependents, 1);
    assert_eq!(a[1].direct_dependents, 2);
    assert!(a[0].time < a[1].time);
    assert_eq!(db.update, 200);
    // Histories stay compressed: adjacent entries always differ.
    for (_, es) in &db.map {
        for w in es.windows(2) {
            assert!(
                w[0].direct_dependents != w[1].direct_dependents
                    || w[0].transitive_dependents != w[1].transitive_dependents
            );
            assert!(w[0].time < w[1].time);
        }
    }
}

#[test]
fn vanished_package_gets_zero_entry_once() {
    let snap1 = IndexSnapshot {
        packages: vec![package("a", &[]), package("b", &["a"])],
    };
    let snap2 = IndexSnapshot { packages: vec![package("b", &[])] };
    let mut db = Db::new();
    db.record_snapshot(&snap1, 100).unwrap();
    db.record_snapshot(&snap2, 200).unwrap();
    let a = entry_of(&db, "a").unwrap();
    assert_eq!(a.len(), 2);
    assert_eq!(a[1].direct_dependents, 0);
    assert_eq!(a[1].transitive_dependents, 0);
    // A third run with the package still gone appends nothing more.
    let snap3 = IndexSnapshot { packages: vec![package("b", &[])] };
    db.record_snapshot(&snap3, 300).unwrap();
    assert_eq!(entry_of(&db, "a").unwrap().len(), 2);
}

#[test]
fn self_loop_reaches_itself() {
    let snap = IndexSnapshot { packages: vec![package("s", &["s"])] };
    let closure = closure_of(&snap, &["s"], "s");
    assert_eq!(closure, names(&["s"]));
}

#[test]
fn first_activation_context_fixes_the_cached_closure() {
    // The memo cache is keyed by package name alone: whichever context
    // reaches x first decides its cached closure for the rest of the
    // snapshot. Package a is traversed first and turns x's "f" feature
    // on, so y lands in x's cached closure; when b later reaches x with
    // default features only, it still sees that closure.
    let x = Package {
        name: "x".to_string(),
        versions: vec![PackageVersion {
            version: "1.0.0".to_string(),
            features: vec![("f".to_string(), vec!["y".to_string()])],
            deps: vec![Dep {
                name: "y".to_string(),
                req: "*".to_string(),
                optional: true,
                default_features: true,
                features: Vec::new(),
            }],
        }],
    };
    let mut a = package("a", &["x"]);
    a.versions[0].deps[0].features = vec!["f".to_string()];
    let b = package("b", &["x"]);
    let snap = IndexSnapshot {
        packages: vec![x, package("y", &[]), a, b],
    };
    let b_closure = closure_of(&snap, &["a", "b", "x", "y"], "b");
    assert!(b_closure.contains(&"x".to_string()));
    assert!(b_closure.contains(&"y".to_string()));
}

#[test]
fn recorded_history_survives_saving_and_loading() {
    let snap1 = IndexSnapshot {
        packages: vec![package("a", &[]), package("b", &["a"])],
    };
    let snap2 = IndexSnapshot {
        packages: vec![package("a", &[]), package("b", &["a"]), package("c", &["b"])],
    };
    let mut db = Db::new();
    db.record_snapshot(&snap1, 86401).unwrap();
    db.record_snapshot(&snap2, 172801).unwrap();
    let (header, chunks) = db.to_chunks(1);
    let loaded = Db::from_chunks(header.update, &chunks).unwrap();
    assert_eq!(loaded.update, db.update);
    assert!(loaded.check_wf());
    for (name, es) in &db.map {
        let found = loaded.map.iter().find(|p| p.0 == *name).unwrap();
        assert_eq!(found.1, *es);
    }
    assert_eq!(loaded.map.len(), db.map.len());
}

#[test]
fn unparseable_requirement_skips_the_branch() {
    let mut bad = package("a", &["b"]);
    bad.versions[0].deps[0].req = "not a requirement".to_string();
    let snap = IndexSnapshot {
        packages: vec![bad, package("b", &["c"]), package("c", &[])],
    };
    // The edge target still counts as reachable, but nothing behind it.
    let closure = closure_of(&snap, &["a", "b", "c"], "a");
    assert_eq!(closure, names(&["b"]));
}
