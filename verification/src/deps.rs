//! The dependency gatherer: which declared edges of a package are live
//! under a version requirement and an enabled-feature set.

use vstd::prelude::*;
use crate::features::FEATURE_DEPTH;
use crate::features::gather_enabled_dependencies;
use crate::features::spec_expand_names;
use crate::names::NameSet;
use crate::names::names_view;
use crate::semver_req::match_req;
use crate::semver_req::req_matches;
use crate::snapshot::Dep;
use crate::snapshot::DepV;
use crate::snapshot::Package;
use crate::snapshot::PackageV;
use crate::snapshot::PackageVersionV;
use crate::snapshot::deps_view;

verus! {

/// The version that serves a requirement: the last one in published order
/// whose version string parses and matches.
pub open spec fn spec_selected_version(
    versions: Seq<PackageVersionV>,
    req: Seq<char>,
) -> Option<PackageVersionV>
    decreases versions.len(),
{
    if versions.len() == 0 {
        None
    } else if req_matches(req, versions.last().version) {
        Some(versions.last())
    } else {
        spec_selected_version(versions.drop_last(), req)
    }
}

/// A declared dependency is live when it is not optional, or when feature
/// expansion activated its name.
pub open spec fn dep_live(d: DepV, activated: Seq<Seq<char>>) -> bool {
    !d.optional || activated.contains(d.name)
}

/// The activated optional-dependency names of one package version under an
/// enabled-feature set: feature expansion with the full depth budget and a
/// fresh checked set.
pub open spec fn spec_activated(pv: PackageVersionV, enabled: Seq<Seq<char>>) -> Seq<
    Seq<char>> {
    spec_expand_names(pv.features, enabled, FEATURE_DEPTH as nat, Set::empty()).0
}

/// The live dependency edges of a package under a requirement and an
/// enabled-feature set: none when no version matches, else the selected
/// version's declared edges filtered by liveness.
pub open spec fn spec_gather_dependencies(
    pkg: PackageV,
    req: Seq<char>,
    enabled: Seq<Seq<char>>,
) -> Seq<DepV> {
    match spec_selected_version(pkg.versions, req) {
        None => Seq::empty(),
        Some(pv) => pv.deps.filter(|d: DepV| dep_live(d, spec_activated(pv, enabled))),
    }
}

/// When `i` matches and everything after `i` misses, the selection is `i`.
proof fn lemma_selected_at(versions: Seq<PackageVersionV>, req: Seq<char>, i: int)
    requires
        0 <= i < versions.len(),
        req_matches(req, versions[i].version),
        forall|j: int|
            i < j < versions.len() ==> !req_matches(req, (#[trigger] versions[j]).version),
    ensures
        spec_selected_version(versions, req) == Some(versions[i]),
    decreases versions.len(),
{
    if i < versions.len() - 1 {
        lemma_selected_at(versions.drop_last(), req, i);
    }
}

/// A selected version is one of the versions.
pub proof fn lemma_selected_exists(versions: Seq<PackageVersionV>, req: Seq<char>)
    requires
        spec_selected_version(versions, req) is Some,
    ensures
        exists|vi: int|
            0 <= vi < versions.len() && versions[vi] == spec_selected_version(
            versions, req).unwrap(),
    decreases versions.len(),
{
    if versions.len() > 0 {
        if req_matches(req, versions.last().version) {
            assert(versions[versions.len() - 1] == spec_selected_version(versions,
                req).unwrap());
        } else {
            lemma_selected_exists(versions.drop_last(), req);
            let vi = choose|vi: int|
                0 <= vi < versions.drop_last().len() && versions.drop_last()[vi]
                    == spec_selected_version(versions.drop_last(), req).unwrap();
            assert(versions[vi] == spec_selected_version(versions, req).unwrap());
        }
    }
}

/// When nothing matches, nothing is selected.
proof fn lemma_selected_none(versions: Seq<PackageVersionV>, req: Seq<char>)
    requires
        forall|j: int|
            0 <= j < versions.len() ==> !req_matches(req, (#[trigger] versions[j]).version),
    ensures
        spec_selected_version(versions, req) is None,
    decreases versions.len(),
{
    if versions.len() > 0 {
        lemma_selected_none(versions.drop_last(), req);
    }
}

/// Whether a vector of names holds `name`.
pub fn names_contain(names: &Vec<String>, name: &String) -> (r: bool)
    ensures
        r == names_view(names@).contains(name@),
{
    let n = names.len();
    for i in 0..n
        invariant
            n == names@.len(),
            forall|j: int| 0 <= j < i ==> names_view(names@)[j] != name@,
    {
        assert(names_view(names@)[i as int] == names@[i as int]@);
        if names[i] == *name {
            proof {
                assert(names_view(names@).contains(name@));
            }
            return true;
        }
    }
    proof {
        if names_view(names@).contains(name@) {
            let j = choose|j: int|
                0 <= j < names_view(names@).len() && names_view(names@)[j] == name@;
            assert(names_view(names@)[j] != name@);
        }
    }
    false
}

/// Gather the live dependency edges of `pkg` under `requirement` and
/// `enabled_features`, mirroring `spec_gather_dependencies`.
pub fn gather_dependencies(
    pkg: &Package,
    requirement: &String,
    enabled_features: &Vec<String>,
) -> (ret: Vec<Dep>)
    ensures
        deps_view(ret@) == spec_gather_dependencies(pkg@, requirement@, names_view(
            enabled_features@)),
{
    let n = pkg.versions.len();
    let mut sel: Option<usize> = None;
    for i in 0..n
        invariant
            n == pkg.versions@.len(),
            pkg@.versions.len() == n,
            match sel {
                Some(s) => s < n && req_matches(requirement@, pkg@.versions[
                    s as int].version) && forall|j: int|
                    s < j < i ==> !req_matches(requirement@, (
                    #[trigger] pkg@.versions[j]).version),
                None => forall|j: int|
                    0 <= j < i ==> !req_matches(requirement@, (
                    #[trigger] pkg@.versions[j]).version),
            },
    {
        assert(pkg@.versions[i as int] == pkg.versions@[i as int]@);
        if match_req(requirement, &pkg.versions[i].version) {
            sel = Some(i);
        }
    }
    let mut ret: Vec<Dep> = Vec::new();
    match sel {
        None => {
            proof {
                lemma_selected_none(pkg@.versions, requirement@);
                assert(deps_view(ret@) =~= spec_gather_dependencies(pkg@, requirement@,
                    names_view(enabled_features@)));
            }
        },
        Some(s) => {
            proof {
                lemma_selected_at(pkg@.versions, requirement@, s as int);
            }
            let ghost pv = pkg@.versions[s as int];
            let mut checked = NameSet::empty();
            let enabled_deps = gather_enabled_dependencies(
                &pkg.versions[s].features,
                enabled_features,
                FEATURE_DEPTH,
                &mut checked,
            );
            let ghost activated = spec_activated(pv, names_view(enabled_features@));
            let ghost pred = |d: DepV| dep_live(d, activated);
            proof {
                assert(pv.features == pkg.versions@[s as int]@.features);
                assert(names_view(enabled_deps@) == activated);
                assert(pv.deps.take(0) =~= Seq::<DepV>::empty());
                assert(pv.deps.take(0).filter(pred) =~= Seq::<DepV>::empty());
                assert(deps_view(ret@) =~= Seq::<DepV>::empty());
            }
            let m = pkg.versions[s].deps.len();
            for i in 0..m
                invariant
                    s < pkg.versions@.len(),
                    pkg@.versions.len() == pkg.versions@.len(),
                    pv == pkg@.versions[s as int],
                    m == pkg.versions@[s as int].deps@.len(),
                    pv.deps.len() == m,
                    activated == names_view(enabled_deps@),
                    pred == (|d: DepV| dep_live(d, activated)),
                    deps_view(ret@) == pv.deps.take(i as int).filter(pred),
            {
                let ghost dv = pv.deps[i as int];
                proof {
                    assert(dv == pkg.versions@[s as int].deps@[i as int]@);
                    assert(pv.deps.take(i + 1) =~= pv.deps.take(i as int).push(dv));
                    pv.deps.take(i as int).lemma_filter_push(dv, pred);
                }
                let dep = &pkg.versions[s].deps[i];
                let live = if !dep.optional {
                    true
                } else {
                    names_contain(&enabled_deps, &dep.name)
                };
                proof {
                    assert(dep@ == dv);
                    assert(live == dep_live(dv, activated));
                }
                if live {
                    let ghost ret_old = ret@;
                    ret.push(dep.duplicate());
                    proof {
                        assert(deps_view(ret@) =~= deps_view(ret_old).push(dv));
                    }
                }
            }
            proof {
                assert(pv.deps.take(m as int) =~= pv.deps);
            }
        },
    }
    ret
}

} // verus!
