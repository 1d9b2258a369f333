//! Feature resolution and dependency gathering.

use cargo_trend::features::gather_enabled_dependencies;
use cargo_trend::names::NameSet;
use cargo_trend::snapshot::Dep;
use cargo_trend::snapshot::Package;
use cargo_trend::snapshot::PackageVersion;
use cargo_trend::deps::gather_dependencies;

fn table(entries: &[(&str, &[&str])]) -> Vec<(String, Vec<String>)> {
    entries
        .iter()
        .map(|(k, vs)| (k.to_string(), vs.iter().map(|v| v.to_string()).collect()))
        .collect()
}

fn names(ns: &[&str]) -> Vec<String> {
    ns.iter().map(|n| n.to_string()).collect()
}

fn dep(name: &str, req: &str, optional: bool, default_features: bool, features: &[&str]) -> Dep {
    Dep {
        name: name.to_string(),
        req: req.to_string(),
        optional,
        default_features,
        features: names(features),
    }
}

fn version(v: &str, features: &[(&str, &[&str])], deps: Vec<Dep>) -> PackageVersion {
    PackageVersion {
        version: v.to_string(),
        features: table(features),
        deps,
    }
}

#[test]
fn expands_tokens_in_order() {
    let tbl = table(&[("default", &["a", "sub"]), ("sub", &["b"])]);
    let mut checked = NameSet::empty();
    let out = gather_enabled_dependencies(&tbl, &names(&["default"]), 100, &mut checked);
    assert_eq!(out, names(&["a", "b"]));
}

#[test]
fn cyclic_table_terminates() {
    let tbl = table(&[("x", &["y"]), ("y", &["x"])]);
    let mut checked = NameSet::empty();
    let out = gather_enabled_dependencies(&tbl, &names(&["x"]), 100, &mut checked);
    assert_eq!(out, names(&["x"]));
}

#[test]
fn depth_zero_emits_tokens_directly() {
    let tbl = table(&[("default", &["a", "sub"]), ("sub", &["b"])]);
    let mut checked = NameSet::empty();
    let out = gather_enabled_dependencies(&tbl, &names(&["default"]), 0, &mut checked);
    assert_eq!(out, names(&["a", "sub"]));
}

#[test]
fn checked_set_prevents_rework() {
    let tbl = table(&[("a", &["x"]), ("b", &["a"])]);
    let mut checked = NameSet::empty();
    let out = gather_enabled_dependencies(&tbl, &names(&["a", "b"]), 100, &mut checked);
    // "b" expands to token "a", whose expansion is already checked and
    // comes back empty, so the token itself is emitted.
    assert_eq!(out, names(&["x", "a"]));
}

#[test]
fn unknown_feature_expands_to_nothing() {
    let tbl = table(&[("default", &["a"])]);
    let mut checked = NameSet::empty();
    let out = gather_enabled_dependencies(&tbl, &names(&["nosuch"]), 100, &mut checked);
    assert!(out.is_empty());
}

#[test]
fn last_matching_version_wins() {
    // Published order decides, not the highest semantic version.
    let pkg = Package {
        name: "p".to_string(),
        versions: vec![
            version("1.0.0", &[], vec![dep("from-one", "*", false, true, &[])]),
            version("2.0.0", &[], vec![dep("from-two", "*", false, true, &[])]),
            version("1.5.0", &[], vec![dep("from-onefive", "*", false, true, &[])]),
        ],
    };
    let req = "^1.0".to_string();
    let out = gather_dependencies(&pkg, &req, &names(&["default"]));
    assert_eq!(out.len(), 1);
    assert_eq!(out[0].name, "from-onefive");
}

#[test]
fn unparseable_version_is_skipped() {
    let pkg = Package {
        name: "p".to_string(),
        versions: vec![
            version("1.0.0", &[], vec![dep("good", "*", false, true, &[])]),
            version("not-a-version", &[], vec![dep("bad", "*", false, true, &[])]),
        ],
    };
    let req = "*".to_string();
    let out = gather_dependencies(&pkg, &req, &names(&["default"]));
    assert_eq!(out.len(), 1);
    assert_eq!(out[0].name, "good");
}

#[test]
fn no_matching_version_gives_no_edges() {
    let pkg = Package {
        name: "p".to_string(),
        versions: vec![version("1.0.0", &[], vec![dep("a", "*", false, true, &[])])],
    };
    let req = "^2.0".to_string();
    let out = gather_dependencies(&pkg, &req, &names(&["default"]));
    assert!(out.is_empty());
}

#[test]
fn optional_dependency_needs_activation() {
    // Package x gates its optional dependency y behind the feature
    // "extra", which is not in the default set.
    let x = Package {
        name: "x".to_string(),
        versions: vec![version(
            "1.0.0",
            &[("extra", &["y"])],
            vec![dep("y", "*", true, true, &[])],
        )],
    };
    let star = "*".to_string();
    let default_only = gather_dependencies(&x, &star, &names(&["default"]));
    assert!(default_only.is_empty());
    let with_extra = gather_dependencies(&x, &star, &names(&["extra"]));
    assert_eq!(with_extra.len(), 1);
    assert_eq!(with_extra[0].name, "y");
}

#[test]
fn non_optional_dependency_is_always_live() {
    let x = Package {
        name: "x".to_string(),
        versions: vec![version("1.0.0", &[], vec![dep("y", "*", false, false, &[])])],
    };
    let star = "*".to_string();
    let out = gather_dependencies(&x, &star, &names(&["default"]));
    assert_eq!(out.len(), 1);
    assert_eq!(out[0].name, "y");
}
